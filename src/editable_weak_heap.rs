use crate::heap_traits::{
    appended, holds_owner, lemma_appended_push, lemma_ge_trans, lemma_max_outranks_rest,
    lemma_order_basics, lemma_owners_insert, lemma_owners_remove, lemma_owners_same,
    lemma_reports_after_push, lemma_reports_push, lemma_reports_swap, lemma_settle,
    lemma_swap_and_report, lemma_swap_into_hole, lemma_swap_multiset, lemma_swap_remove,
    lemma_swap_unique, lemma_tracked_changes_reported, lemma_update_multiset, moves_track,
    owners_unique, priority_less, ranks_ge, report, report_holds, reports_accurate, reports_after,
    swap_slots, swapped, total_order, tracked_except, EditableHeap, HeapEntry, HeapIndex, Move,
};
use crate::mediator::MediatorIndex;
use std::cmp::Ordering;
use vstd::prelude::*;
use vstd::std_specs::cmp::OrdSpec;

verus! {

broadcast use vstd::seq_lib::group_to_multiset_ensures;

/// Which side the sibling node is on. The child node is on the other side.
#[derive(Copy, Clone, Debug, PartialEq, Eq, Structural)]
pub enum SiblingSide {
    Left,
    Right,
}

impl SiblingSide {
    pub fn flip(&mut self)
        ensures
            *final(self) == if *old(self) == SiblingSide::Left {
                SiblingSide::Right
            } else {
                SiblingSide::Left
            },
    {
        match self {
            SiblingSide::Left => *self = SiblingSide::Right,
            SiblingSide::Right => *self = SiblingSide::Left,
        };
    }

    pub fn as_bool(&self) -> (r: bool)
        ensures
            r == (*self == SiblingSide::Right),
    {
        *self == SiblingSide::Right
    }
}

impl Default for SiblingSide {
    fn default() -> (r: Self)
        ensures
            r == SiblingSide::Left,
    {
        SiblingSide::Left
    }
}

/// Weak heap: a binary tree over the array in which each node's side bit
/// says which of its two binary children is its child in the heap and
/// which continues its sibling chain. The root has the single child 1.
#[derive(Clone, Debug)]
pub struct WeakHeap<TPriority> where TPriority: Ord {
    sides: Vec<SiblingSide>,
    data: Vec<HeapEntry<TPriority>>,
}

impl<TPriority: Ord> View for WeakHeap<TPriority> {
    type V = Seq<HeapEntry<TPriority>>;

    closed spec fn view(&self) -> Seq<HeapEntry<TPriority>> {
        self.data@
    }
}

/// Binary child of `i` that is its child in the heap.
pub open spec fn first_child_of(sides: Seq<SiblingSide>, i: int) -> int {
    2 * i + if sides[i] == SiblingSide::Right {
        0int
    } else {
        1int
    }
}

/// Binary child of `i` that continues the sibling chain of `i`.
pub open spec fn next_sibling_of(sides: Seq<SiblingSide>, i: int) -> int {
    2 * i + if sides[i] == SiblingSide::Right {
        1int
    } else {
        0int
    }
}

/// The node whose priority must outrank that of `j`: climb binary parents
/// while the node is the sibling-chain child, stop at the first parent of
/// which it is the heap child.
pub open spec fn distinguished_ancestor_of(sides: Seq<SiblingSide>, j: int) -> int
    decreases j,
{
    if j <= 0 {
        0
    } else if j == first_child_of(sides, j / 2) {
        j / 2
    } else {
        distinguished_ancestor_of(sides, j / 2)
    }
}

/// The distinguished ancestor computed as if every side bit were `Left`.
pub open spec fn ignorant_ancestor_of(j: int) -> int
    decreases j,
{
    if j <= 0 {
        0
    } else if j % 2 != 0 {
        j / 2
    } else {
        ignorant_ancestor_of(j / 2)
    }
}

pub proof fn lemma_ancestor_below(sides: Seq<SiblingSide>, j: int)
    requires
        j > 0,
    ensures
        0 <= distinguished_ancestor_of(sides, j) < j,
    decreases j,
{
    assert(distinguished_ancestor_of(sides, 0) == 0);
    if j != first_child_of(sides, j / 2) && j / 2 > 0 {
        lemma_ancestor_below(sides, j / 2);
    }
}

proof fn lemma_ignorant_below(j: int)
    requires
        j > 0,
    ensures
        0 <= ignorant_ancestor_of(j) < j,
    decreases j,
{
    assert(ignorant_ancestor_of(0) == 0);
    if j % 2 == 0 && j / 2 > 0 {
        lemma_ignorant_below(j / 2);
    }
}

/// The other side.
pub open spec fn flipped(b: SiblingSide) -> SiblingSide {
    if b == SiblingSide::Left {
        SiblingSide::Right
    } else {
        SiblingSide::Left
    }
}

/// `c` is a binary ancestor of `j` other than `j` itself.
pub open spec fn is_proper_ancestor(c: int, j: int) -> bool
    decreases j,
{
    if j <= 0 {
        false
    } else {
        j / 2 == c || is_proper_ancestor(c, j / 2)
    }
}

proof fn lemma_proper_ancestor_trans(a: int, p: int, i: int)
    requires
        is_proper_ancestor(a, p),
        is_proper_ancestor(p, i),
    ensures
        is_proper_ancestor(a, i),
    decreases i,
{
    if i / 2 != p {
        lemma_proper_ancestor_trans(a, p, i / 2);
    }
}

/// Slot `i` lies on the chain of distinguished ancestors that starts at
/// `pos` (`pos` included).
pub open spec fn on_ancestor_chain(sides: Seq<SiblingSide>, pos: int, i: int) -> bool
    decreases pos,
{
    if i == pos {
        true
    } else if pos <= 0 {
        false
    } else {
        let a = distinguished_ancestor_of(sides, pos);
        0 <= a < pos && on_ancestor_chain(sides, a, i)
    }
}

proof fn lemma_chain_step(sides: Seq<SiblingSide>, orig: int, p: int)
    requires
        p > 0,
        on_ancestor_chain(sides, orig, p),
    ensures
        on_ancestor_chain(sides, orig, distinguished_ancestor_of(sides, p)),
    decreases orig,
{
    lemma_ancestor_below(sides, p);
    let d = distinguished_ancestor_of(sides, p);
    if orig == p {
        assert(on_ancestor_chain(sides, d, d));
    } else if d != orig {
        lemma_chain_step(sides, distinguished_ancestor_of(sides, orig), p);
    }
}

/// Side bits that agree above `j` give `j` the same distinguished ancestor.
proof fn lemma_ancestor_agree(r1: Seq<SiblingSide>, r2: Seq<SiblingSide>, j: int)
    requires
        0 <= j < r1.len(),
        j < r2.len(),
        forall|k: int| 0 <= k < j ==> #[trigger] r1[k] == r2[k],
    ensures
        distinguished_ancestor_of(r1, j) == distinguished_ancestor_of(r2, j),
    decreases j,
{
    if j > 0 {
        assert(r1[j / 2] == r2[j / 2]);
        lemma_ancestor_agree(r1, r2, j / 2);
    }
}

/// The entry in slot `j` ranks no higher than the one in its
/// distinguished ancestor.
pub open spec fn weak_edge<T: Ord>(s: Seq<HeapEntry<T>>, sides: Seq<SiblingSide>, j: int) -> bool {
    ranks_ge(s[distinguished_ancestor_of(sides, j)].priority, s[j].priority)
}

/// The weak heap invariant: no entry outranks its distinguished ancestor.
pub open spec fn weak_heap_order<T: Ord>(s: Seq<HeapEntry<T>>, sides: Seq<SiblingSide>) -> bool {
    forall|j: int| 0 < j < s.len() ==> #[trigger] weak_edge(s, sides, j)
}

proof fn lemma_proper_ancestor_bounds(c: int, j: int)
    requires
        0 <= c,
        is_proper_ancestor(c, j),
    ensures
        2 * c <= j,
        c < j,
    decreases j,
{
    if j / 2 != c {
        lemma_proper_ancestor_bounds(c, j / 2);
    }
}

proof fn lemma_ancestor_is_proper(sides: Seq<SiblingSide>, j: int)
    requires
        j > 0,
    ensures
        is_proper_ancestor(distinguished_ancestor_of(sides, j), j),
    decreases j,
{
    if j != first_child_of(sides, j / 2) && j / 2 > 0 {
        lemma_ancestor_is_proper(sides, j / 2);
    }
    if j / 2 == 0 {
        assert(distinguished_ancestor_of(sides, 0) == 0);
    }
}

/// A side bit matters only to the nodes below it.
proof fn lemma_ancestor_unaffected(sides: Seq<SiblingSide>, c: int, v: SiblingSide, j: int)
    requires
        0 <= c < sides.len(),
        j < sides.len(),
        !is_proper_ancestor(c, j),
    ensures
        distinguished_ancestor_of(sides.update(c, v), j) == distinguished_ancestor_of(sides, j),
    decreases j,
{
    if j > 0 {
        assert(sides.update(c, v)[j / 2] == sides[j / 2]);
        lemma_ancestor_unaffected(sides, c, v, j / 2);
    }
}

/// Flipping the bit of `c` trades, for the nodes below `c` whose climb
/// reaches `c`, the ancestor `c` and the ancestor of `c`.
proof fn lemma_ancestor_flip(sides: Seq<SiblingSide>, c: int, j: int)
    requires
        0 <= c,
        j < sides.len(),
        is_proper_ancestor(c, j),
    ensures
        ({
            let r2 = sides.update(c, flipped(sides[c]));
            let d = distinguished_ancestor_of(sides, j);
            let dc = distinguished_ancestor_of(sides, c);
            &&& d == c ==> distinguished_ancestor_of(r2, j) == dc
            &&& d == dc ==> distinguished_ancestor_of(r2, j) == c
            &&& d != c && d != dc ==> distinguished_ancestor_of(r2, j) == d
        }),
    decreases j,
{
    let r2 = sides.update(c, flipped(sides[c]));
    lemma_proper_ancestor_bounds(c, j);
    if c > 0 {
        lemma_ancestor_below(sides, c);
    }
    assert(distinguished_ancestor_of(sides, 0) == 0);
    assert(distinguished_ancestor_of(r2, 0) == 0);
    assert(!is_proper_ancestor(c, c)) by {
        if is_proper_ancestor(c, c) {
            lemma_proper_ancestor_bounds(c, c);
        }
    }
    lemma_ancestor_unaffected(sides, c, flipped(sides[c]), c);
    if j / 2 == c {
    } else {
        let p = j / 2;
        assert(r2[p] == sides[p]);
        lemma_proper_ancestor_bounds(c, p);
        lemma_ancestor_flip(sides, c, p);
        if j != first_child_of(sides, p) {
            lemma_ancestor_below(sides, p);
        }
    }
}

/// Trading the entries of `q` and of a node `c` whose distinguished
/// ancestor is `q`, where `c` outranks `q`, and flipping the bit of `c`,
/// keeps the invariant at every other node where it held; it holds at `c`
/// afterwards, and at `q` where the ancestor of `q` outranks the entry
/// that moves up.
proof fn lemma_join<T: Ord>(s: Seq<HeapEntry<T>>, sides: Seq<SiblingSide>, q: int, c: int, j: int)
    requires
        total_order::<T>(),
        s.len() == sides.len(),
        0 <= q < c < s.len(),
        0 < j < s.len(),
        distinguished_ancestor_of(sides, c) == q,
        s[q].priority.cmp_spec(&s[c].priority) == Ordering::Less,
        j != q && j != c ==> weak_edge(s, sides, j),
        j == q ==> ranks_ge(s[distinguished_ancestor_of(sides, q)].priority, s[c].priority),
    ensures
        weak_edge(swapped(s, c, q), sides.update(c, flipped(sides[c])), j),
{
    lemma_order_basics::<T>();
    let t = swapped(s, c, q);
    let r2 = sides.update(c, flipped(sides[c]));
    let d = distinguished_ancestor_of(sides, j);
    lemma_ancestor_below(sides, j);
    lemma_ancestor_is_proper(sides, j);
    assert(ranks_ge(s[c].priority, s[q].priority));
    if j == c {
        assert(!is_proper_ancestor(c, c)) by {
            if is_proper_ancestor(c, c) {
                lemma_proper_ancestor_bounds(c, c);
            }
        }
        lemma_ancestor_unaffected(sides, c, flipped(sides[c]), c);
    } else if j == q {
        assert(!is_proper_ancestor(c, q)) by {
            if is_proper_ancestor(c, q) {
                lemma_proper_ancestor_bounds(c, q);
            }
        }
        lemma_ancestor_unaffected(sides, c, flipped(sides[c]), q);
        lemma_ancestor_below(sides, q);
    } else if is_proper_ancestor(c, j) {
        lemma_ancestor_flip(sides, c, j);
        lemma_proper_ancestor_bounds(c, j);
        if d != c && d != q {
            lemma_proper_ancestor_bounds(d, j);
            assert(t[d] == s[d]);
        }
    } else {
        lemma_ancestor_unaffected(sides, c, flipped(sides[c]), j);
        assert(d != c);
        if d == q {
            lemma_ge_trans(s[c].priority, s[q].priority, s[j].priority);
        } else {
            assert(t[d] == s[d]);
        }
    }
}

/// The nodes whose distinguished ancestor is `q` form a chain that starts
/// at the heap child of `q`.
proof fn lemma_chain_start(sides: Seq<SiblingSide>, q: int, y: int)
    requires
        0 <= q,
        0 < y < sides.len(),
        distinguished_ancestor_of(sides, y) == q,
    ensures
        y >= first_child_of(sides, q),
    decreases y,
{
    assert(distinguished_ancestor_of(sides, 0) == 0);
    if y != first_child_of(sides, y / 2) && y / 2 > 0 {
        lemma_chain_start(sides, q, y / 2);
    }
}

/// Along the chain of nodes whose distinguished ancestor is `q`, each node
/// lies at or below the sibling-chain child of every earlier one.
proof fn lemma_chain_order(sides: Seq<SiblingSide>, q: int, j: int, y: int)
    requires
        0 <= q,
        0 < y < j < sides.len(),
        distinguished_ancestor_of(sides, j) == q,
        distinguished_ancestor_of(sides, y) == q,
    ensures
        j >= next_sibling_of(sides, y),
    decreases j + y,
{
    assert(distinguished_ancestor_of(sides, 0) == 0);
    if j == first_child_of(sides, j / 2) {
        lemma_chain_start(sides, q, y);
    } else if j / 2 == 0 {
    } else if j / 2 == y {
    } else if j / 2 > y {
        lemma_chain_order(sides, q, j / 2, y);
    } else {
        lemma_chain_order(sides, q, y, j / 2);
    }
}

/// The distinguished ancestor depends only on the bits of the nodes above.
proof fn lemma_ancestor_prefix(sides: Seq<SiblingSide>, m: int, j: int)
    requires
        0 <= j < m <= sides.len(),
    ensures
        distinguished_ancestor_of(sides.subrange(0, m), j) == distinguished_ancestor_of(sides, j),
    decreases j,
{
    if j > 0 {
        lemma_ancestor_prefix(sides, m, j / 2);
    }
}

/// Where every bit above `j` is `Left`, the ancestor is the ignorant one.
proof fn lemma_ignorant_is_ancestor(sides: Seq<SiblingSide>, j: int)
    requires
        0 <= j < sides.len(),
        forall|k: int| 0 <= k < j ==> #[trigger] sides[k] == SiblingSide::Left,
    ensures
        ignorant_ancestor_of(j) == distinguished_ancestor_of(sides, j),
    decreases j,
{
    if j > 0 {
        lemma_ignorant_is_ancestor(sides, j / 2);
    }
}

/// The entries and side bits after sifting the entry at `pos` up: while
/// its distinguished ancestor ranks lower, the two trade places and the bit
/// of `pos` flips.
pub open spec fn weak_sifted_up<T: Ord>(
    s: Seq<HeapEntry<T>>,
    sides: Seq<SiblingSide>,
    pos: int,
) -> (Seq<HeapEntry<T>>, Seq<SiblingSide>)
    decreases pos,
{
    let a = distinguished_ancestor_of(sides, pos);
    if pos <= 0 || !(0 <= a < pos) || s[a].priority.cmp_spec(&s[pos].priority)
        != Ordering::Less {
        (s, sides)
    } else {
        weak_sifted_up(swapped(s, pos, a), sides.update(pos, flipped(sides[pos])), a)
    }
}

/// The last node of the sibling chain that runs from `c` among `n` slots.
pub open spec fn chain_end(sides: Seq<SiblingSide>, n: int, c: int) -> int
    decreases n - c,
{
    if c >= n - c || next_sibling_of(sides, c) >= n || next_sibling_of(sides, c) <= c {
        c
    } else {
        chain_end(sides, n, next_sibling_of(sides, c))
    }
}

/// Walking from `cur` up to `q`, trade `q` with each node that outranks it
/// and flip that node's bit.
pub open spec fn join_walk<T: Ord>(
    s: Seq<HeapEntry<T>>,
    sides: Seq<SiblingSide>,
    q: int,
    cur: int,
) -> (Seq<HeapEntry<T>>, Seq<SiblingSide>)
    decreases cur,
{
    if cur <= q || cur <= 0 {
        (s, sides)
    } else if s[q].priority.cmp_spec(&s[cur].priority) == Ordering::Less {
        join_walk(swapped(s, cur, q), sides.update(cur, flipped(sides[cur])), q, cur / 2)
    } else {
        join_walk(s, sides, q, cur / 2)
    }
}

/// The entries and side bits after sifting the entry at `q` down.
pub open spec fn weak_sifted_down<T: Ord>(
    s: Seq<HeapEntry<T>>,
    sides: Seq<SiblingSide>,
    q: int,
) -> (Seq<HeapEntry<T>>, Seq<SiblingSide>) {
    if q < s.len() - q && first_child_of(sides, q) < s.len() {
        join_walk(s, sides, q, chain_end(sides, s.len() as int, first_child_of(sides, q)))
    } else {
        (s, sides)
    }
}

/// The entries and side bits after a bulk build has joined each slot from
/// `pos - 1` down to 1 with its ignorant ancestor.
pub open spec fn weak_built<T: Ord>(
    s: Seq<HeapEntry<T>>,
    sides: Seq<SiblingSide>,
    pos: int,
) -> (Seq<HeapEntry<T>>, Seq<SiblingSide>)
    decreases pos,
{
    if pos <= 1 {
        (s, sides)
    } else {
        let p = pos - 1;
        let a = ignorant_ancestor_of(p);
        if s[a].priority.cmp_spec(&s[p].priority) == Ordering::Less {
            weak_built(swapped(s, p, a), sides.update(p, flipped(sides[p])), p)
        } else {
            weak_built(s, sides, p)
        }
    }
}

/// The marks of side bits: `true` for `Right`.
pub open spec fn marks_of(sides: Seq<SiblingSide>) -> Seq<bool> {
    sides.map_values(|b: SiblingSide| b == SiblingSide::Right)
}

/// The invariant holds at every node but `hole`.
pub open spec fn weak_order_except<T: Ord>(
    s: Seq<HeapEntry<T>>,
    sides: Seq<SiblingSide>,
    hole: int,
) -> bool {
    forall|j: int| 0 < j < s.len() && j != hole ==> #[trigger] weak_edge(s, sides, j)
}

/// The invariant holds at every node whose distinguished ancestor is not `q`.
pub open spec fn weak_order_above<T: Ord>(
    s: Seq<HeapEntry<T>>,
    sides: Seq<SiblingSide>,
    q: int,
) -> bool {
    forall|j: int|
        0 < j < s.len() && distinguished_ancestor_of(sides, j) != q ==> #[trigger] weak_edge(
            s,
            sides,
            j,
        )
}

/// The distinguished ancestor of `q` outranks every node whose
/// distinguished ancestor is `q`.
pub open spec fn ancestor_bounds_children<T: Ord>(
    s: Seq<HeapEntry<T>>,
    sides: Seq<SiblingSide>,
    q: int,
) -> bool {
    q > 0 ==> forall|j: int|
        0 < j < s.len() && #[trigger] distinguished_ancestor_of(sides, j) == q ==> ranks_ge(
            s[distinguished_ancestor_of(sides, q)].priority,
            s[j].priority,
        )
}

proof fn lemma_weak_prefix<T: Ord>(s: Seq<HeapEntry<T>>, sides: Seq<SiblingSide>, m: int)
    requires
        s.len() == sides.len(),
        0 <= m <= s.len(),
        weak_heap_order(s, sides),
    ensures
        weak_heap_order(s.subrange(0, m), sides.subrange(0, m)),
{
    assert forall|j: int| 0 < j < m implies #[trigger] weak_edge(
        s.subrange(0, m),
        sides.subrange(0, m),
        j,
    ) by {
        lemma_ancestor_prefix(sides, m, j);
        lemma_ancestor_below(sides, j);
        assert(weak_edge(s, sides, j));
    }
}

/// Putting into slot `pos` an entry that outranks the one there leaves the
/// heap ready to sift `pos` up.
proof fn lemma_weak_replace_up<T: Ord>(
    s: Seq<HeapEntry<T>>,
    sides: Seq<SiblingSide>,
    pos: int,
    v: HeapEntry<T>,
)
    requires
        total_order::<T>(),
        s.len() == sides.len(),
        0 <= pos < s.len(),
        weak_heap_order(s, sides),
        ranks_ge(v.priority, s[pos].priority),
    ensures
        weak_order_except(s.update(pos, v), sides, pos),
{
    let t = s.update(pos, v);
    assert forall|j: int| 0 < j < t.len() && j != pos implies #[trigger] weak_edge(t, sides, j) by {
        assert(weak_edge(s, sides, j));
        lemma_ancestor_below(sides, j);
        if distinguished_ancestor_of(sides, j) == pos {
            lemma_ge_trans(v.priority, s[pos].priority, s[j].priority);
        }
    }
}

/// Putting into slot `pos` an entry that its distinguished ancestor
/// outranks leaves the heap ready to sift `pos` down.
proof fn lemma_weak_replace_down<T: Ord>(
    s: Seq<HeapEntry<T>>,
    sides: Seq<SiblingSide>,
    pos: int,
    v: HeapEntry<T>,
)
    requires
        total_order::<T>(),
        s.len() == sides.len(),
        0 <= pos < s.len(),
        weak_heap_order(s, sides),
        pos > 0 ==> ranks_ge(s[distinguished_ancestor_of(sides, pos)].priority, v.priority),
    ensures
        weak_order_above(s.update(pos, v), sides, pos),
        ancestor_bounds_children(s.update(pos, v), sides, pos),
{
    let t = s.update(pos, v);
    assert forall|j: int|
        0 < j < t.len() && distinguished_ancestor_of(sides, j) != pos implies #[trigger] weak_edge(
        t,
        sides,
        j,
    ) by {
        assert(weak_edge(s, sides, j));
        lemma_ancestor_below(sides, j);
    }
    if pos > 0 {
        lemma_ancestor_below(sides, pos);
        assert(weak_edge(s, sides, pos));
        assert forall|j: int|
            0 < j < t.len() && #[trigger] distinguished_ancestor_of(sides, j) == pos implies ranks_ge(
            t[distinguished_ancestor_of(sides, pos)].priority,
            t[j].priority,
        ) by {
            assert(weak_edge(s, sides, j));
            lemma_ancestor_below(sides, j);
            lemma_ge_trans(
                s[distinguished_ancestor_of(sides, pos)].priority,
                s[pos].priority,
                s[j].priority,
            );
        }
    }
}

/// In a weak heap the entry in slot 0 outranks every entry.
pub proof fn lemma_weak_root_is_max<T: Ord>(s: Seq<HeapEntry<T>>, sides: Seq<SiblingSide>)
    requires
        total_order::<T>(),
        weak_heap_order(s, sides),
    ensures
        forall|i: int| 0 <= i < s.len() ==> ranks_ge(s[0].priority, #[trigger] s[i].priority),
{
    assert forall|i: int| 0 <= i < s.len() implies ranks_ge(s[0].priority, #[trigger] s[i].priority) by {
        lemma_weak_root_above(s, sides, i);
    }
}

proof fn lemma_weak_root_above<T: Ord>(s: Seq<HeapEntry<T>>, sides: Seq<SiblingSide>, i: int)
    requires
        total_order::<T>(),
        weak_heap_order(s, sides),
        0 <= i < s.len(),
    ensures
        ranks_ge(s[0].priority, s[i].priority),
    decreases i,
{
    lemma_order_basics::<T>();
    if i > 0 {
        let d = distinguished_ancestor_of(sides, i);
        lemma_ancestor_below(sides, i);
        lemma_weak_root_above(s, sides, d);
        assert(weak_edge(s, sides, i));
        lemma_ge_trans(s[0].priority, s[d].priority, s[i].priority);
    }
}

proof fn lemma_weak_sifted_up_order<T: Ord>(t: Seq<HeapEntry<T>>, sides: Seq<SiblingSide>, pos: int)
    requires
        total_order::<T>(),
        t.len() == sides.len(),
        0 <= pos < t.len(),
        weak_order_except(t, sides, pos),
    ensures
        weak_heap_order(weak_sifted_up(t, sides, pos).0, weak_sifted_up(t, sides, pos).1),
    decreases pos,
{
    let a = distinguished_ancestor_of(sides, pos);
    if pos > 0 {
        lemma_ancestor_below(sides, pos);
    }
    if pos > 0 && t[a].priority.cmp_spec(&t[pos].priority) == Ordering::Less {
        let t2 = swapped(t, pos, a);
        let r2 = sides.update(pos, flipped(sides[pos]));
        assert forall|j: int| 0 < j < t2.len() && j != a implies #[trigger] weak_edge(t2, r2, j) by {
            lemma_join(t, sides, a, pos, j);
        }
        lemma_weak_sifted_up_order(t2, r2, a);
    } else {
        assert forall|j: int| 0 < j < t.len() implies #[trigger] weak_edge(t, sides, j) by {}
    }
}

/// Pushing onto a weak heap keeps it a weak heap, whatever the owners: the
/// entries and side bits that `push` leaves (see `after_push`) are ordered.
pub proof fn lemma_weak_push_keeps_order<T: Ord>(
    s: Seq<HeapEntry<T>>,
    sides: Seq<SiblingSide>,
    e: HeapEntry<T>,
)
    requires
        total_order::<T>(),
        s.len() == sides.len(),
        weak_heap_order(s, sides),
    ensures
        ({
            let n = s.len() as int;
            let r1 = sides.push(SiblingSide::Left);
            let r2 = if n % 2 == 0 {
                r1.update(n / 2, SiblingSide::Left)
            } else {
                r1
            };
            let t = weak_sifted_up(s.push(e), r2, n);
            weak_heap_order(t.0, t.1)
        }),
{
    let n = s.len() as int;
    let r1 = sides.push(SiblingSide::Left);
    let r2 = if n % 2 == 0 {
        r1.update(n / 2, SiblingSide::Left)
    } else {
        r1
    };
    let t = s.push(e);
    assert(r1.subrange(0, n) =~= sides);
    assert forall|j: int| 0 < j < t.len() && j != n implies #[trigger] weak_edge(t, r2, j) by {
        lemma_ancestor_prefix(r1, n, j);
        if n % 2 == 0 {
            let p = n / 2;
            assert(!is_proper_ancestor(p, j)) by {
                if is_proper_ancestor(p, j) {
                    lemma_proper_ancestor_bounds(p, j);
                }
            }
            lemma_ancestor_unaffected(r1, p, SiblingSide::Left, j);
        }
        assert(weak_edge(s, sides, j));
        lemma_ancestor_below(sides, j);
    }
    lemma_weak_sifted_up_order(t, r2, n);
}

impl<TPriority: Ord> WeakHeap<TPriority> {
    /// The side bits, one per slot.
    pub closed spec fn side_bits(&self) -> Seq<SiblingSide> {
        self.sides@
    }

    /// The weak heap's shape: one side bit per slot, and the root's bit
    /// `Left`, so that slot 1 is its child.
    pub open spec fn shaped(&self) -> bool {
        &&& self.side_bits().len() == self@.len()
        &&& self@.len() > 0 ==> self.side_bits()[0] == SiblingSide::Left
    }

    pub fn distinguished_ancestor(&self, position: HeapIndex) -> (r: HeapIndex)
        requires
            position.0 < self.side_bits().len(),
        ensures
            r.0 == distinguished_ancestor_of(self.side_bits(), position.0 as int),
    {
        let mut cur: usize = position.0;
        while cur > 0
            invariant
                cur < self.sides@.len(),
                distinguished_ancestor_of(self.sides@, position.0 as int) == distinguished_ancestor_of(
                    self.sides@,
                    cur as int,
                ),
            decreases cur,
        {
            let binary_parent_pos = cur / 2;
            let is_direct_child = (cur % 2 == 0) == self.sides[binary_parent_pos].as_bool();
            proof {
                let p = binary_parent_pos as int;
                assert(cur as int == 2 * p + (cur as int) % 2);
                assert(is_direct_child == (cur as int == first_child_of(self.sides@, p)));
            }
            if is_direct_child {
                return HeapIndex(binary_parent_pos);
            } else {
                // This binary parent is actually our sibling: go on with
                // the sibling's own ancestor.
                cur = binary_parent_pos;
            }
        }
        // Here we are at the root.
        HeapIndex(0)
    }

    pub fn next_sibling(&self, position: HeapIndex) -> (r: HeapIndex)
        requires
            position.0 < self.side_bits().len(),
            2 * position.0 + 1 <= usize::MAX,
        ensures
            r.0 == next_sibling_of(self.side_bits(), position.0 as int),
    {
        let position = position.0;
        let bit: usize = if self.sides[position].as_bool() {
            1
        } else {
            0
        };
        HeapIndex(position * 2 + bit)
    }

    pub fn first_child(&self, position: HeapIndex) -> (r: HeapIndex)
        requires
            position.0 < self.side_bits().len(),
            2 * position.0 + 1 <= usize::MAX,
        ensures
            r.0 == first_child_of(self.side_bits(), position.0 as int),
    {
        let position = position.0;
        let bit: usize = if self.sides[position].as_bool() {
            0
        } else {
            1
        };
        HeapIndex(position * 2 + bit)
    }

    /// Sifts the entry at `position` up its chain of distinguished
    /// ancestors while the ancestor ranks lower, flipping the side bit of
    /// each slot it leaves; reports each entry moved and, last, where the
    /// sifted one rests.
    pub fn heapify_up(
        &mut self,
        position: HeapIndex,
        changes: &mut Vec<Move>,
        Ghost(before): Ghost<Seq<HeapEntry<TPriority>>>,
    )
        requires
            total_order::<TPriority>(),
            old(self).shaped(),
            position.0 < old(self)@.len(),
            owners_unique(old(self)@),
            weak_order_except(old(self)@, old(self).side_bits(), position.0 as int),
            tracked_except(
                before,
                old(self)@,
                appended(old(changes)@, old(changes)@.len() as int),
                position.0 as int,
            ),
        ensures
            forall|i: int|
                0 <= i < old(self)@.len() && !on_ancestor_chain(
                    old(self).side_bits(),
                    position.0 as int,
                    i,
                ) ==> #[trigger] final(self)@[i] == old(self)@[i],
            forall|i: int|
                0 <= i < old(self)@.len() && !on_ancestor_chain(
                    old(self).side_bits(),
                    position.0 as int,
                    i,
                ) ==> #[trigger] final(self).side_bits()[i] == old(self).side_bits()[i],
            final(changes)@.len() > old(changes)@.len(),
            final(changes)@.last().0 == old(self)@[position.0 as int].outer_pos,
            final(changes)@.last().1.0 < final(self)@.len(),
            final(self)@[final(changes)@.last().1.0 as int] == old(self)@[position.0 as int],
            (final(self)@, final(self).side_bits()) == weak_sifted_up(
                old(self)@,
                old(self).side_bits(),
                position.0 as int,
            ),
            final(self).shaped(),
            weak_heap_order(final(self)@, final(self).side_bits()),
            owners_unique(final(self)@),
            final(self)@.to_multiset() == old(self)@.to_multiset(),
            final(self)@.len() == old(self)@.len(),
            final(changes)@.subrange(0, old(changes)@.len() as int) == old(changes)@,
            moves_track(before, final(self)@, appended(final(changes)@, old(changes)@.len() as int)),
            reports_accurate(final(self)@, appended(final(changes)@, old(changes)@.len() as int)),
            forall|i: int|
                0 <= i < old(self)@.len() && !(i == position.0 || is_proper_ancestor(i, position.0 as int)) ==> #[trigger] final(self)@[i] == old(self)@[i],
            forall|i: int|
                0 <= i < old(self)@.len() && !(i == position.0 || is_proper_ancestor(i, position.0 as int)) ==> #[trigger] final(self).side_bits()[i] == old(self).side_bits()[i],
    {
        let ghost start = old(changes)@.len() as int;
        let ghost orig = position.0 as int;
        let mut position: usize = position.0;
        let len = self.data.len();
        let mut done = false;
        while position > 0 && !done
            invariant
                total_order::<TPriority>(),
                len == self.data@.len(),
                self.shaped(),
                position < self.data@.len(),
                self.data@.len() == old(self)@.len(),
                owners_unique(self.data@),
                self.data@.to_multiset() == old(self)@.to_multiset(),
                start == old(changes)@.len(),
                start <= changes@.len(),
                changes@.subrange(0, start) == old(changes)@,
                tracked_except(before, self.data@, appended(changes@, start), position as int),
                reports_accurate(self.data@, appended(changes@, start)),
                reports_after(appended(changes@, start), position as int),
                weak_order_except(self.data@, self.sides@, position as int),
                position == orig || is_proper_ancestor(position as int, orig),
                self.data@[position as int] == old(self)@[orig],
                on_ancestor_chain(old(self).sides@, orig, position as int),
                forall|k: int| 0 <= k < position ==> #[trigger] self.sides@[k] == old(self).sides@[k],
                forall|i: int|
                    0 <= i < len && !on_ancestor_chain(old(self).sides@, orig, i) ==> #[trigger] self.data@[i]
                        == old(self).data@[i],
                forall|i: int|
                    0 <= i < len && !on_ancestor_chain(old(self).sides@, orig, i) ==> #[trigger] self.sides@[i]
                        == old(self).sides@[i],
                weak_sifted_up(self.data@, self.sides@, position as int) == weak_sifted_up(
                    old(self).data@,
                    old(self).sides@,
                    orig,
                ),
                done ==> weak_sifted_up(self.data@, self.sides@, position as int) == (
                    self.data@,
                    self.sides@,
                ),
                old(self).sides@.len() == len,
                forall|i: int|
                    0 <= i < len && !(i == orig || is_proper_ancestor(i, orig)) ==> #[trigger] self.data@[i] == old(self).data@[i],
                forall|i: int|
                    0 <= i < len && !(i == orig || is_proper_ancestor(i, orig)) ==> #[trigger] self.sides@[i] == old(self).sides@[i],
                done ==> position > 0 && weak_edge(self.data@, self.sides@, position as int),
            decreases position + if done {
                0int
            } else {
                1int
            },
        {
            let parent_pos = self.distinguished_ancestor(HeapIndex(position)).0;
            proof {
                lemma_ancestor_below(self.sides@, position as int);
            }
            if !priority_less(&self.data[parent_pos].priority, &self.data[position].priority) {
                done = true;
            } else {
                proof {
                    lemma_swap_and_report(
                        before,
                        self.data@,
                        changes@,
                        start,
                        position as int,
                        parent_pos as int,
                    );
                    let t = swapped(self.data@, parent_pos as int, position as int);
                    assert(swapped(self.data@, position as int, parent_pos as int) =~= t);
                    lemma_appended_push(
                        changes@,
                        start,
                        (t[position as int].outer_pos, HeapIndex(position)),
                    );
                    let m = (t[position as int].outer_pos, HeapIndex(position));
                    lemma_reports_swap(self.data@, appended(changes@, start), parent_pos as int, position as int);
                    lemma_reports_push(t, appended(changes@, start), m);
                    lemma_reports_after_push(appended(changes@, start), m, position as int, parent_pos as int);
                }
                proof {
                    lemma_ancestor_agree(self.sides@, old(self).sides@, position as int);
                    lemma_chain_step(old(self).sides@, orig, position as int);
                    lemma_ancestor_is_proper(self.sides@, position as int);
                    if position != orig {
                        lemma_proper_ancestor_trans(parent_pos as int, position as int, orig);
                    }
                }
                let ghost s0 = self.data@;
                let ghost r0 = self.sides@;
                swap_slots(&mut self.data, parent_pos, position);
                self.sides[position].flip();
                proof {
                    assert(self.data@ =~= swapped(s0, position as int, parent_pos as int));
                    assert(self.sides@ =~= r0.update(position as int, flipped(r0[position as int])));
                    assert forall|j: int|
                        0 < j < self.data@.len() && j != parent_pos implies #[trigger] weak_edge(
                        self.data@,
                        self.sides@,
                        j,
                    ) by {
                        lemma_join(s0, r0, parent_pos as int, position as int, j);
                    }
                }
                report(changes, self.data[position].outer_pos, position);
                proof {
                    assert forall|i: int|
                        0 <= i < len && !(i == orig || is_proper_ancestor(i, orig)) implies #[trigger] self.data@[i] == old(self).data@[i] by {
                        assert(s0[i] == old(self).data@[i]);
                    }
                    assert forall|i: int|
                        0 <= i < len && !(i == orig || is_proper_ancestor(i, orig)) implies #[trigger] self.sides@[i] == old(self).sides@[i] by {
                        assert(r0[i] == old(self).sides@[i]);
                    }
                    assert forall|i: int|
                        0 <= i < len && !on_ancestor_chain(old(self).sides@, orig, i) implies #[trigger] self.data@[i]
                            == old(self).data@[i] by {
                        assert(s0[i] == old(self).data@[i]);
                    }
                    assert forall|i: int|
                        0 <= i < len && !on_ancestor_chain(old(self).sides@, orig, i) implies #[trigger] self.sides@[i]
                            == old(self).sides@[i] by {
                        assert(r0[i] == old(self).sides@[i]);
                    }
                    assert forall|k: int| 0 <= k < parent_pos implies #[trigger] self.sides@[k]
                        == old(self).sides@[k] by {
                        assert(r0[k] == old(self).sides@[k]);
                    }
                }
                position = parent_pos;
            }
        }
        proof {
            assert forall|j: int| 0 < j < self.data@.len() implies #[trigger] weak_edge(
                self.data@,
                self.sides@,
                j,
            ) by {}
            lemma_settle(before, self.data@, changes@, start, position as int);
            lemma_appended_push(
                changes@,
                start,
                (self.data@[position as int].outer_pos, HeapIndex(position)),
            );
            lemma_reports_push(
                self.data@,
                appended(changes@, start),
                (self.data@[position as int].outer_pos, HeapIndex(position)),
            );
        }
        report(changes, self.data[position].outer_pos, position);
    }

    /// Sifts the entry at `position` down: finds the last node of the
    /// sibling chain that starts at its heap child, then walks that chain
    /// back up to `position`, swapping wherever the chain node outranks
    /// the entry at `position` and flipping that node's side bit; reports
    /// each entry moved and, last, the entry at `position`.
    pub fn heapify_down(
        &mut self,
        position: HeapIndex,
        changes: &mut Vec<Move>,
        Ghost(before): Ghost<Seq<HeapEntry<TPriority>>>,
    )
        requires
            total_order::<TPriority>(),
            old(self).shaped(),
            position.0 < old(self)@.len(),
            owners_unique(old(self)@),
            weak_order_above(old(self)@, old(self).side_bits(), position.0 as int),
            ancestor_bounds_children(old(self)@, old(self).side_bits(), position.0 as int),
            tracked_except(
                before,
                old(self)@,
                appended(old(changes)@, old(changes)@.len() as int),
                position.0 as int,
            ),
        ensures
            exists|k: int|
                0 <= k < appended(final(changes)@, old(changes)@.len() as int).len() && (
                #[trigger] appended(final(changes)@, old(changes)@.len() as int)[k]).0 == old(
                    self,
                )@[position.0 as int].outer_pos,
            final(changes)@.len() > 0 && final(changes)@.last() == (
                final(self)@[position.0 as int].outer_pos,
                position,
            ),
            (final(self)@, final(self).side_bits()) == weak_sifted_down(
                old(self)@,
                old(self).side_bits(),
                position.0 as int,
            ),
            final(self).shaped(),
            weak_heap_order(final(self)@, final(self).side_bits()),
            owners_unique(final(self)@),
            final(self)@.to_multiset() == old(self)@.to_multiset(),
            final(self)@.len() == old(self)@.len(),
            final(changes)@.subrange(0, old(changes)@.len() as int) == old(changes)@,
            moves_track(before, final(self)@, appended(final(changes)@, old(changes)@.len() as int)),
            reports_accurate(final(self)@, appended(final(changes)@, old(changes)@.len() as int)),
            forall|i: int|
                0 <= i < old(self)@.len() && !(i == position.0 || is_proper_ancestor(position.0 as int, i)) ==> #[trigger] final(self)@[i] == old(self)@[i],
            forall|i: int|
                0 <= i < old(self)@.len() && !(i == position.0 || is_proper_ancestor(position.0 as int, i)) ==> #[trigger] final(self).side_bits()[i] == old(self).side_bits()[i],
    {
        let ghost start = old(changes)@.len() as int;
        let position: usize = position.0;
        let ghost q = position as int;
        let ghost mut witness: int = -1;
        let len = self.data.len();
        let mut has_children = false;
        if position < len - position {
            let first_child_idx = self.first_child(HeapIndex(position)).0;
            if first_child_idx < len {
                has_children = true;
                proof {
                    assert(first_child_idx as int / 2 == q);
                    assert(distinguished_ancestor_of(self.sides@, first_child_idx as int) == q);
                }
                let mut current_child_idx = first_child_idx;
                let mut searching = true;
                while searching
                    invariant
                        len == self.data@.len(),
                        self.shaped(),
                        position < current_child_idx < len,
                        distinguished_ancestor_of(self.sides@, current_child_idx as int) == q,
                        self.data@ == old(self).data@,
                        self.sides@ == old(self).sides@,
                        chain_end(self.sides@, len as int, current_child_idx as int) == chain_end(
                            self.sides@,
                            len as int,
                            first_child_idx as int,
                        ),
                        !searching ==> chain_end(self.sides@, len as int, current_child_idx as int)
                            == current_child_idx,
                        !searching ==> next_sibling_of(self.sides@, current_child_idx as int) >= len,
                    decreases len - current_child_idx + if searching {
                        1int
                    } else {
                        0int
                    },
                {
                    if current_child_idx >= len - current_child_idx {
                        searching = false;
                    } else {
                        let cand_child_idx = self.next_sibling(HeapIndex(current_child_idx)).0;
                        if cand_child_idx >= len {
                            searching = false;
                        } else {
                            proof {
                                assert(cand_child_idx as int / 2 == current_child_idx);
                                assert(cand_child_idx != first_child_of(
                                    self.sides@,
                                    current_child_idx as int,
                                ));
                            }
                            current_child_idx = cand_child_idx;
                        }
                    }
                }
                proof {
                    assert forall|j: int|
                        0 < j < len && !(j <= current_child_idx && distinguished_ancestor_of(
                            self.sides@,
                            j,
                        ) == q) implies #[trigger] weak_edge(self.data@, self.sides@, j) by {
                        if distinguished_ancestor_of(self.sides@, j) == q {
                            lemma_chain_order(self.sides@, q, j, current_child_idx as int);
                        }
                    }
                }
                let ghost last = current_child_idx as int;
                let mut current_child_idx = current_child_idx;
                while current_child_idx > position
                    invariant
                        total_order::<TPriority>(),
                        len == self.data@.len(),
                        self.shaped(),
                        position < len,
                        position <= current_child_idx < len,
                        current_child_idx > position ==> distinguished_ancestor_of(
                            self.sides@,
                            current_child_idx as int,
                        ) == q,
                        q == position,
                        witness < 0 ==> self.data@[q] == old(self).data@[q],
                        witness >= 0 ==> witness < appended(changes@, start).len() && appended(
                            changes@,
                            start,
                        )[witness].0 == old(self).data@[q].outer_pos,
                        join_walk(self.data@, self.sides@, q, current_child_idx as int) == join_walk(
                            old(self).data@,
                            old(self).sides@,
                            q,
                            last,
                        ),
                        old(self).sides@.len() == len,
                        forall|i: int|
                            0 <= i < len && !(i == q || is_proper_ancestor(q, i)) ==> #[trigger] self.data@[i] == old(self).data@[i],
                        forall|i: int|
                            0 <= i < len && !(i == q || is_proper_ancestor(q, i)) ==> #[trigger] self.sides@[i] == old(self).sides@[i],
                        forall|j: int|
                            0 < j < len && !(j <= current_child_idx && distinguished_ancestor_of(
                                self.sides@,
                                j,
                            ) == q) ==> #[trigger] weak_edge(self.data@, self.sides@, j),
                        q > 0 ==> forall|j: int|
                            0 < j < len && j <= current_child_idx
                                && #[trigger] distinguished_ancestor_of(self.sides@, j) == q
                                ==> ranks_ge(
                                self.data@[distinguished_ancestor_of(self.sides@, q)].priority,
                                self.data@[j].priority,
                            ),
                        self.data@.len() == old(self)@.len(),
                        owners_unique(self.data@),
                        self.data@.to_multiset() == old(self)@.to_multiset(),
                        start == old(changes)@.len(),
                        start <= changes@.len(),
                        changes@.subrange(0, start) == old(changes)@,
                        tracked_except(before, self.data@, appended(changes@, start), position as int),
                        reports_accurate(self.data@, appended(changes@, start)),
                        reports_after(appended(changes@, start), current_child_idx as int),
                    decreases current_child_idx,
                {
                    let ghost c = current_child_idx as int;
                    let ghost s0 = self.data@;
                    let ghost r0 = self.sides@;
                    proof {
                        lemma_ancestor_below(r0, c);
                        assert(distinguished_ancestor_of(r0, 0) == 0);
                        if c != first_child_of(r0, c / 2) && c / 2 > 0 {
                            lemma_ancestor_below(r0, c / 2);
                        }
                        if q > 0 {
                            lemma_ancestor_below(r0, q);
                        }
                    }
                    if priority_less(
                        &self.data[position].priority,
                        &self.data[current_child_idx].priority,
                    ) {
                        proof {
                            lemma_swap_into_hole(
                                before,
                                self.data@,
                                changes@,
                                start,
                                position as int,
                                current_child_idx as int,
                            );
                            let t = swapped(self.data@, current_child_idx as int, position as int);
                            let m = (t[current_child_idx as int].outer_pos, HeapIndex(current_child_idx));
                            lemma_appended_push(changes@, start, m);
                            lemma_reports_swap(self.data@, appended(changes@, start), current_child_idx as int, position as int);
                            lemma_reports_push(t, appended(changes@, start), m);
                            lemma_reports_after_push(appended(changes@, start), m, current_child_idx as int, current_child_idx as int / 2);
                        }
                        proof {
                            lemma_ancestor_is_proper(self.sides@, current_child_idx as int);
                        }
                        let ghost before_swap = appended(changes@, start);
                        proof {
                            if witness < 0 {
                                witness = before_swap.len() as int;
                            }
                        }
                        swap_slots(&mut self.data, current_child_idx, position);
                        self.sides[current_child_idx].flip();
                        proof {
                            let r2 = r0.update(c, flipped(r0[c]));
                            assert(self.sides@ =~= r2);
                            assert(self.sides@ == r2);
                            assert forall|j: int|
                                0 < j < len && !(j <= c / 2 && distinguished_ancestor_of(r2, j)
                                    == q) implies #[trigger] weak_edge(self.data@, self.sides@, j) by {
                                if j != q && j != c {
                                    if j < c {
                                        assert(!is_proper_ancestor(c, j)) by {
                                            if is_proper_ancestor(c, j) {
                                                lemma_proper_ancestor_bounds(c, j);
                                            }
                                        }
                                        lemma_ancestor_unaffected(r0, c, flipped(r0[c]), j);
                                        if distinguished_ancestor_of(r0, j) == q && j > c / 2 {
                                            lemma_chain_order(r0, q, c, j);
                                        }
                                    }
                                }
                                lemma_join(s0, r0, q, c, j);
                            }
                            if q > 0 {
                                assert(!is_proper_ancestor(c, q)) by {
                                    if is_proper_ancestor(c, q) {
                                        lemma_proper_ancestor_bounds(c, q);
                                    }
                                }
                                lemma_ancestor_unaffected(r0, c, flipped(r0[c]), q);
                                assert forall|j: int|
                                    0 < j < len && j <= c / 2
                                        && #[trigger] distinguished_ancestor_of(r2, j) == q implies ranks_ge(
                                    self.data@[distinguished_ancestor_of(r2, q)].priority,
                                    self.data@[j].priority,
                                ) by {
                                    assert(!is_proper_ancestor(c, j)) by {
                                        if is_proper_ancestor(c, j) {
                                            lemma_proper_ancestor_bounds(c, j);
                                        }
                                    }
                                    lemma_ancestor_unaffected(r0, c, flipped(r0[c]), j);
                                    lemma_ancestor_below(r0, j);
                                }
                            }
                        }
                        report(changes, self.data[current_child_idx].outer_pos, current_child_idx);
                        proof {
                            assert(appended(changes@, start)[witness] == before_swap.push(
                                appended(changes@, start).last(),
                            )[witness]);
                        }
                        proof {
                            assert forall|i: int|
                                0 <= i < len && !(i == q || is_proper_ancestor(q, i)) implies #[trigger] self.data@[i] == old(self).data@[i] by {
                                assert(s0[i] == old(self).data@[i]);
                            }
                            assert forall|i: int|
                                0 <= i < len && !(i == q || is_proper_ancestor(q, i)) implies #[trigger] self.sides@[i] == old(self).sides@[i] by {
                                assert(r0[i] == old(self).sides@[i]);
                            }
                        }
                    } else {
                        proof {
                            lemma_reports_after_push(
                                appended(changes@, start),
                                (MediatorIndex(0), HeapIndex(c as usize)),
                                c,
                                c / 2,
                            );
                        }
                        proof {
                            assert forall|j: int|
                                0 < j < len && !(j <= c / 2 && distinguished_ancestor_of(r0, j)
                                    == q) implies #[trigger] weak_edge(self.data@, self.sides@, j) by {
                                if j != c && j < c && j > c / 2 && distinguished_ancestor_of(r0, j)
                                    == q {
                                    lemma_chain_order(r0, q, c, j);
                                }
                            }
                        }
                    }
                    proof {
                        if c / 2 > q {
                            assert(!is_proper_ancestor(c, c / 2)) by {
                                if is_proper_ancestor(c, c / 2) {
                                    lemma_proper_ancestor_bounds(c, c / 2);
                                }
                            }
                            lemma_ancestor_unaffected(r0, c, flipped(r0[c]), c / 2);
                            assert(distinguished_ancestor_of(r0, c / 2) == q);
                        }
                    }
                    current_child_idx = current_child_idx / 2;
                }
                proof {
                    assert forall|j: int| 0 < j < len implies #[trigger] weak_edge(
                        self.data@,
                        self.sides@,
                        j,
                    ) by {
                        lemma_ancestor_below(self.sides@, j);
                    }
                }
            }
        }
        if !has_children {
            proof {
                assert forall|j: int| 0 < j < len implies #[trigger] weak_edge(
                    self.data@,
                    self.sides@,
                    j,
                ) by {
                    if distinguished_ancestor_of(self.sides@, j) == q {
                        lemma_chain_start(self.sides@, q, j);
                    }
                }
            }
        }
        proof {
            lemma_settle(before, self.data@, changes@, start, position as int);
            lemma_appended_push(
                changes@,
                start,
                (self.data@[position as int].outer_pos, HeapIndex(position)),
            );
            lemma_reports_push(
                self.data@,
                appended(changes@, start),
                (self.data@[position as int].outer_pos, HeapIndex(position)),
            );
        }
        let ghost before_last = appended(changes@, start);
        report(changes, self.data[position].outer_pos, position);
        proof {
            let mv = appended(changes@, start);
            if witness < 0 {
                assert(mv[mv.len() - 1].0 == old(self)@[q].outer_pos);
            } else {
                assert(mv[witness] == before_last.push(mv.last())[witness]);
                assert(mv[witness].0 == old(self)@[q].outer_pos);
            }
        }
    }
}

/// The distinguished ancestor ignoring the side bits, as a bulk build
/// computes it before any bit is meaningful.
fn ignorant_distinguished_ancestor(position: usize) -> (r: usize)
    ensures
        r == ignorant_ancestor_of(position as int),
{
    let mut cur: usize = position;
    while cur > 0
        invariant
            ignorant_ancestor_of(position as int) == ignorant_ancestor_of(cur as int),
        decreases cur,
    {
        assert(ignorant_ancestor_of(cur as int) == if (cur as int) % 2 != 0 {
            (cur as int) / 2
        } else {
            ignorant_ancestor_of((cur as int) / 2)
        });
        if cur % 2 != 0 {
            return cur / 2;
        } else {
            // This binary parent is actually our sibling.
            cur = cur / 2;
        }
    }
    0
}

impl<TPriority: Ord> EditableHeap<TPriority> for WeakHeap<TPriority> {
    open spec fn entries(&self) -> Seq<HeapEntry<TPriority>> {
        self@
    }

    open spec fn side_marks(&self) -> Seq<bool> {
        marks_of(self.side_bits())
    }

    open spec fn build_layout(base: Seq<HeapEntry<TPriority>>) -> Seq<HeapEntry<TPriority>> {
        weak_built(base, Seq::new(base.len(), |i: int| SiblingSide::Left), base.len() as int).0
    }

    open spec fn after_push(&self, e: HeapEntry<TPriority>) -> (
        Seq<HeapEntry<TPriority>>,
        Seq<bool>,
    ) {
        let n = self@.len() as int;
        let r1 = self.side_bits().push(SiblingSide::Left);
        let r2 = if n % 2 == 0 {
            r1.update(n / 2, SiblingSide::Left)
        } else {
            r1
        };
        let t = weak_sifted_up(self@.push(e), r2, n);
        (t.0, marks_of(t.1))
    }

    open spec fn after_remove(&self, pos: int) -> (Seq<HeapEntry<TPriority>>, Seq<bool>) {
        let n = self@.len() as int;
        let u = self@.subrange(0, n - 1).update(pos, self@[n - 1]);
        let rp = self.side_bits().subrange(0, n - 1);
        let a = distinguished_ancestor_of(rp, pos);
        let t = if pos + 1 == n {
            (self@.subrange(0, n - 1), rp)
        } else if pos > 0 && u[a].priority.cmp_spec(&u[pos].priority) == Ordering::Less {
            weak_sifted_up(u, rp, pos)
        } else {
            weak_sifted_down(u, rp, pos)
        };
        (t.0, marks_of(t.1))
    }

    open spec fn after_change(&self, pos: int, updated: TPriority) -> (
        Seq<HeapEntry<TPriority>>,
        Seq<bool>,
    ) {
        let e = self@[pos];
        let u = self@.update(pos, HeapEntry { outer_pos: e.outer_pos, priority: updated });
        let t = if e.priority.cmp_spec(&updated) == Ordering::Less {
            weak_sifted_up(u, self.side_bits(), pos)
        } else if e.priority.cmp_spec(&updated) == Ordering::Equal {
            (u, self.side_bits())
        } else {
            weak_sifted_down(u, self.side_bits(), pos)
        };
        (t.0, marks_of(t.1))
    }

    open spec fn build_marks(base: Seq<HeapEntry<TPriority>>) -> Seq<bool> {
        marks_of(
            weak_built(base, Seq::new(base.len(), |i: int| SiblingSide::Left), base.len() as int).1,
        )
    }

    open spec fn is_above(a: int, i: int) -> bool {
        a == i || is_proper_ancestor(a, i)
    }

    open spec fn well_formed(&self) -> bool {
        &&& self.shaped()
        &&& owners_unique(self@)
        &&& weak_heap_order(self@, self.side_bits())
    }

    fn from_entries_vec(heap_base: Vec<HeapEntry<TPriority>>) -> (heap: Self) {
        let heap_len = heap_base.len();
        let mut sides: Vec<SiblingSide> = Vec::new();
        while sides.len() < heap_len
            invariant
                sides@.len() <= heap_len,
                forall|i: int| 0 <= i < sides@.len() ==> #[trigger] sides@[i] == SiblingSide::Left,
            decreases heap_len - sides@.len(),
        {
            sides.push(SiblingSide::default());
        }
        let ghost base = heap_base@;
        let ghost all_left = Seq::new(heap_len as nat, |i: int| SiblingSide::Left);
        proof {
            assert(sides@ =~= all_left);
        }
        let mut heap = WeakHeap { data: heap_base, sides };
        let mut pos = heap_len;
        while pos > 1
            invariant
                total_order::<TPriority>(),
                1 <= pos <= heap_len || (pos == heap_len && heap_len <= 1),
                heap_len == heap.data@.len(),
                heap.sides@.len() == heap_len,
                forall|k: int| 0 <= k < pos ==> #[trigger] heap.sides@[k] == SiblingSide::Left,
                forall|j: int| pos <= j < heap_len && j > 0 ==> #[trigger] weak_edge(heap.data@, heap.sides@, j),
                owners_unique(heap.data@),
                heap.data@.to_multiset() == base.to_multiset(),
                base.len() == heap_len,
                weak_built(heap.data@, heap.sides@, pos as int) == weak_built(
                    base,
                    all_left,
                    heap_len as int,
                ),
            decreases pos,
        {
            pos = pos - 1;
            let ancestor_pos = ignorant_distinguished_ancestor(pos);
            proof {
                lemma_ignorant_below(pos as int);
                lemma_ignorant_is_ancestor(heap.sides@, pos as int);
            }
            let ghost s0 = heap.data@;
            let ghost r0 = heap.sides@;
            if priority_less(&heap.data[ancestor_pos].priority, &heap.data[pos].priority) {
                proof {
                    lemma_swap_multiset(heap.data@, pos as int, ancestor_pos as int);
                    lemma_swap_unique(heap.data@, pos as int, ancestor_pos as int);
                    assert(swapped(heap.data@, ancestor_pos as int, pos as int) =~= swapped(
                        heap.data@,
                        pos as int,
                        ancestor_pos as int,
                    ));
                }
                swap_slots(&mut heap.data, ancestor_pos, pos);
                heap.sides[pos].flip();
                proof {
                    assert(heap.data@ == swapped(s0, pos as int, ancestor_pos as int));
                    assert(heap.sides@ =~= r0.update(pos as int, flipped(r0[pos as int])));
                    assert forall|j: int| pos <= j < heap_len && j > 0 implies #[trigger] weak_edge(
                        heap.data@,
                        heap.sides@,
                        j,
                    ) by {
                        lemma_join(s0, r0, ancestor_pos as int, pos as int, j);
                    }
                }
            }
        }
        proof {
            lemma_owners_same(base, heap.data@);
        }
        heap
    }

    fn reserve(&mut self, additional: usize) {
        self.data.reserve(additional)
    }

    fn push(&mut self, outer_pos: MediatorIndex, priority: TPriority, changes: &mut Vec<Move>) {
        let ghost before = self.data@;
        let ghost r_before = self.sides@;
        let new_index = self.data.len();
        self.data.push(HeapEntry { outer_pos, priority });
        self.sides.push(SiblingSide::default());
        if new_index % 2 == 0 {
            self.sides[new_index / 2] = SiblingSide::default();
        }
        proof {
            assert forall|i: int| 0 <= i < new_index implies #[trigger] self.data@[i] == before[i] by {}
            assert forall|i: int| 0 <= i < new_index implies before[i].outer_pos != outer_pos by {
                if before[i].outer_pos == outer_pos {
                    assert(before[i].outer_pos == outer_pos);
                }
            }
            let r1 = r_before.push(SiblingSide::Left);
            assert(r1.subrange(0, new_index as int) =~= r_before);
            assert forall|j: int| 0 < j < self.data@.len() && j != new_index implies #[trigger] weak_edge(
                self.data@,
                self.sides@,
                j,
            ) by {
                lemma_ancestor_prefix(r1, new_index as int, j);
                if new_index % 2 == 0 {
                    let p = new_index as int / 2;
                    assert(self.sides@ =~= r1.update(p, SiblingSide::Left));
                    assert(!is_proper_ancestor(p, j)) by {
                        if is_proper_ancestor(p, j) {
                            lemma_proper_ancestor_bounds(p, j);
                        }
                    }
                    lemma_ancestor_unaffected(r1, p, SiblingSide::Left, j);
                } else {
                    assert(self.sides@ =~= r1);
                }
                assert(weak_edge(before, r_before, j));
                lemma_ancestor_below(r_before, j);
            }
        }
        let ghost pushed = self.data@[self.data@.len() - 1];
        self.heapify_up(HeapIndex(new_index), changes, Ghost(before));
        proof {
            lemma_owners_insert(before, self.data@, pushed);
        }
        proof {
            lemma_tracked_changes_reported(
                before,
                self.data@,
                appended(changes@, old(changes)@.len() as int),
            );
        }
    }

    fn remove(&mut self, position: HeapIndex, changes: &mut Vec<Move>) -> (r: Option<
        (MediatorIndex, TPriority),
    >) {
        let ghost before = self.data@;
        let ghost r_before = self.sides@;
        proof {
            lemma_weak_root_is_max(before, r_before);
        }
        let n = self.data.len();
        if position.0 >= n {
            proof {
                assert(changes@.subrange(0, changes@.len() as int) =~= changes@);
            }
            proof {
                lemma_tracked_changes_reported(
                    before,
                    self.data@,
                    appended(changes@, old(changes)@.len() as int),
                );
            }
            return None;
        }
        if position.0 + 1 == n {
            let result = match self.data.pop() {
                Some(e) => e,
                None => {
                    proof {
                        lemma_tracked_changes_reported(
                            before,
                            self.data@,
                            appended(changes@, old(changes)@.len() as int),
                        );
                    }
                    return None;
                },
            };
            self.sides.pop();
            proof {
                lemma_weak_prefix(before, r_before, n - 1);
                vstd::seq_lib::to_multiset_remove(before, n - 1);
                assert(before.remove(n - 1) =~= before.subrange(0, n - 1));
                assert(changes@.subrange(0, changes@.len() as int) =~= changes@);
                lemma_owners_remove(before, self.data@, n - 1);
            }
            proof {
                lemma_tracked_changes_reported(
                    before,
                    self.data@,
                    appended(changes@, old(changes)@.len() as int),
                );
            }
            return Some(result.conv_pair());
        }
        let pos = position.0;
        let result = self.data.swap_remove(pos);
        self.sides.pop();
        let ghost p = before.subrange(0, n - 1);
        let ghost rp = r_before.subrange(0, n - 1);
        let ghost x = before[n - 1];
        proof {
            lemma_weak_prefix(before, r_before, n - 1);
            lemma_swap_remove(before, pos as int);
            assert(self.data@ =~= p.update(pos as int, x));
            assert(self.sides@ == rp);
        }
        let mut sift_up = false;
        if pos > 0 {
            let ancestor_pos = self.distinguished_ancestor(position).0;
            proof {
                lemma_ancestor_below(self.sides@, pos as int);
            }
            sift_up = priority_less(&self.data[ancestor_pos].priority, &self.data[pos].priority);
            proof {
                lemma_order_basics::<TPriority>();
                assert(weak_edge(p, rp, pos as int));
                if sift_up {
                    lemma_ge_trans(x.priority, p[ancestor_pos as int].priority, p[pos as int].priority);
                    lemma_weak_replace_up(p, rp, pos as int, x);
                } else {
                    lemma_weak_replace_down(p, rp, pos as int, x);
                }
            }
        } else {
            proof {
                lemma_weak_replace_down(p, rp, pos as int, x);
            }
        }
        if sift_up {
            self.heapify_up(position, changes, Ghost(before));
        } else {
            self.heapify_down(position, changes, Ghost(before));
        }
        proof {
            if pos == 0 {
                lemma_max_outranks_rest(before, self.data@);
            }
            lemma_owners_remove(before, self.data@, pos as int);
            let mv = appended(changes@, old(changes)@.len() as int);
            assert forall|k: int| 0 <= k < mv.len() implies (#[trigger] mv[k]).0
                != before[pos as int].outer_pos by {
                assert(report_holds(self.data@, mv[k]));
                assert(self.data@[mv[k].1.0 as int].outer_pos == mv[k].0);
                assert(holds_owner(self.data@, mv[k].0));
            }
        }
        proof {
            lemma_tracked_changes_reported(
                before,
                self.data@,
                appended(changes@, old(changes)@.len() as int),
            );
        }
        Some(result.conv_pair())
    }

    fn data(&self) -> (r: &[HeapEntry<TPriority>]) {
        self.data.as_slice()
    }

    fn change_outer_pos(&mut self, outer_pos: MediatorIndex, position: HeapIndex) -> (r:
        MediatorIndex) {
        let ghost before = self.data@;
        let old_pos = self.data[position.0].outer_pos;
        self.data[position.0].outer_pos = outer_pos;
        proof {
            assert forall|j: int| 0 < j < self.data@.len() implies #[trigger] weak_edge(
                self.data@,
                self.sides@,
                j,
            ) by {
                assert(weak_edge(before, self.sides@, j));
                lemma_ancestor_below(self.sides@, j);
            }
        }
        old_pos
    }

    fn change_priority(
        &mut self,
        position: HeapIndex,
        updated: TPriority,
        changes: &mut Vec<Move>,
    ) -> (r: TPriority) {
        let ghost before = self.data@;
        let pos = position.0;
        let outer = self.data[pos].outer_pos;
        let mut entry = HeapEntry { outer_pos: outer, priority: updated };
        std::mem::swap(&mut self.data[pos], &mut entry);
        let previous = entry.priority;
        let ghost updated_entry = self.data@[pos as int];
        proof {
            lemma_order_basics::<TPriority>();
            lemma_update_multiset(before, pos as int, self.data@[pos as int]);
            assert(self.data@ =~= before.update(pos as int, self.data@[pos as int]));
        }
        let ghost r = self.sides@;
        let ghost e2 = self.data@[pos as int];
        proof {
            if pos > 0 {
                lemma_ancestor_below(r, pos as int);
                assert(weak_edge(before, r, pos as int));
            }
        }
        match previous.cmp(&self.data[pos].priority) {
            Ordering::Less => {
                proof {
                    lemma_weak_replace_up(before, r, pos as int, e2);
                }
                self.heapify_up(position, changes, Ghost(before));
                proof {
                    let mv = appended(changes@, old(changes)@.len() as int);
                    assert(mv[mv.len() - 1] == changes@.last());
                }
                proof {
                    assert forall|i: int|
                        0 <= i < before.len() && !(i == pos || is_proper_ancestor(i, pos as int)) implies #[trigger] self.data@[i]
                            == before[i] && self.side_marks()[i] == old(self).side_marks()[i] by {
                        assert(self.sides@[i] == r[i]);
                    }
                }
            },
            Ordering::Equal => {
                proof {
                    if pos > 0 {
                        lemma_ge_trans(
                            before[distinguished_ancestor_of(r, pos as int)].priority,
                            previous,
                            e2.priority,
                        );
                    }
                    lemma_weak_replace_down(before, r, pos as int, e2);
                    assert forall|j: int| 0 < j < self.data@.len() implies #[trigger] weak_edge(
                        self.data@,
                        self.sides@,
                        j,
                    ) by {
                        lemma_ancestor_below(r, j);
                        if distinguished_ancestor_of(r, j) == pos {
                            assert(weak_edge(before, r, j));
                            lemma_ge_trans(e2.priority, previous, before[j].priority);
                        }
                    }
                    assert(changes@.subrange(0, changes@.len() as int) =~= changes@);
                }
            },
            Ordering::Greater => {
                proof {
                    if pos > 0 {
                        lemma_ge_trans(
                            before[distinguished_ancestor_of(r, pos as int)].priority,
                            previous,
                            e2.priority,
                        );
                    }
                    lemma_weak_replace_down(before, r, pos as int, e2);
                }
                self.heapify_down(position, changes, Ghost(before));
                proof {
                    assert forall|i: int|
                        0 <= i < before.len() && !(i == pos || is_proper_ancestor(pos as int, i)) implies #[trigger] self.data@[i]
                            == before[i] && self.side_marks()[i] == old(self).side_marks()[i] by {
                        assert(self.sides@[i] == r[i]);
                    }
                }
            },
        }
        proof {
            assert forall|i: int| 0 <= i < self.sides@.len() implies #[trigger] self.side_marks()[i]
                == (self.sides@[i] == SiblingSide::Right) by {}
            assert forall|i: int| 0 <= i < old(self).sides@.len() implies #[trigger] old(
                self,
            ).side_marks()[i] == (old(self).sides@[i] == SiblingSide::Right) by {}
        }
        proof {
            let m = before.remove(pos as int);
            vstd::seq_lib::to_multiset_remove(before, pos as int);
            lemma_owners_remove(before, m, pos as int);
            lemma_owners_insert(m, self.data@, updated_entry);
        }
        proof {
            lemma_tracked_changes_reported(
                before,
                self.data@,
                appended(changes@, old(changes)@.len() as int),
            );
        }
        previous
    }

    fn most_prioritized_idx(&self) -> (r: Option<(MediatorIndex, HeapIndex)>) {
        proof {
            if self.well_formed() && total_order::<TPriority>() {
                lemma_weak_root_is_max(self.data@, self.sides@);
            }
        }
        if self.data.len() == 0 {
            None
        } else {
            Some((self.data[0].outer_pos, HeapIndex(0)))
        }
    }

    fn clear(&mut self) {
        self.data.clear();
        self.sides.clear();
    }
}

} // verus!
