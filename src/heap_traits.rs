use crate::mediator::MediatorIndex;
use std::cmp::Ordering;
use vstd::laws_cmp::{obeys_cmp, obeys_cmp_ord, obeys_partial_cmp_spec_properties};
use vstd::laws_eq::obeys_eq_spec_properties;
use vstd::prelude::*;
use vstd::std_specs::cmp::{OrdSpec, PartialEqSpec, PartialOrdSpec};

verus! {

broadcast use vstd::seq_lib::group_to_multiset_ensures;

/// Wrapper around usize that can be used only as index of a heap's array.
/// Mostly needed to statically check that a heap is not indexed by any
/// other collection's index.
#[derive(Copy, Clone, PartialEq, Eq, Structural, Ord, PartialOrd, Debug, Hash)]
pub struct HeapIndex(pub usize);

/// One slot of a heap: the owner reference and its priority.
#[derive(Copy, Clone, PartialEq, Eq, Debug)]
pub struct HeapEntry<TPriority> {
    pub outer_pos: MediatorIndex,
    pub priority: TPriority,
}

/// A report that the entry of an owner now rests at a position.
pub type Move = (MediatorIndex, HeapIndex);

impl<TPriority> HeapEntry<TPriority> {
    pub fn conv_pair(self) -> (r: (MediatorIndex, TPriority))
        ensures
            r == (self.outer_pos, self.priority),
    {
        (self.outer_pos, self.priority)
    }

    pub fn priority_ref(&self) -> (r: &TPriority)
        ensures
            *r == self.priority,
    {
        &self.priority
    }

    pub fn to_outer(&self) -> (r: MediatorIndex)
        ensures
            r == self.outer_pos,
    {
        self.outer_pos
    }
}

// ---------------------------------------------------------------------------
// Ordering of priorities
// ---------------------------------------------------------------------------

/// The priorities form a total order: `cmp` is deterministic, antisymmetric
/// and transitive, and agrees with `partial_cmp` and `==`.
pub open spec fn total_order<T: Ord>() -> bool {
    obeys_cmp::<T>()
}

/// `a` is at least as prioritized as `b`.
pub open spec fn ranks_ge<T: Ord>(a: T, b: T) -> bool {
    a.cmp_spec(&b) != Ordering::Less
}

pub proof fn lemma_order_basics<T: Ord>()
    requires
        total_order::<T>(),
    ensures
        T::obeys_cmp_spec(),
        forall|a: T, b: T|
            #[trigger] a.cmp_spec(&b) == Ordering::Less <==> b.cmp_spec(&a) == Ordering::Greater,
{
    reveal(obeys_cmp_ord);
    reveal(obeys_partial_cmp_spec_properties);
    assert forall|a: T, b: T|
        #[trigger] a.cmp_spec(&b) == Ordering::Less <==> b.cmp_spec(&a)
            == Ordering::Greater by {
        assert(a.partial_cmp_spec(&b) == Some(a.cmp_spec(&b)));
        assert(b.partial_cmp_spec(&a) == Some(b.cmp_spec(&a)));
    }
}

pub proof fn lemma_ge_trans<T: Ord>(a: T, b: T, c: T)
    requires
        total_order::<T>(),
        ranks_ge(a, b),
        ranks_ge(b, c),
    ensures
        ranks_ge(a, c),
{
    reveal(obeys_cmp_ord);
    reveal(obeys_partial_cmp_spec_properties);
    reveal(obeys_eq_spec_properties);
    assert(a.partial_cmp_spec(&b) == Some(a.cmp_spec(&b)));
    assert(b.partial_cmp_spec(&c) == Some(b.cmp_spec(&c)));
    assert(a.partial_cmp_spec(&c) == Some(a.cmp_spec(&c)));
    assert(c.partial_cmp_spec(&a) == Some(c.cmp_spec(&a)));
    assert(c.partial_cmp_spec(&b) == Some(c.cmp_spec(&b)));
    assert(b.partial_cmp_spec(&a) == Some(b.cmp_spec(&a)));
    if a.cmp_spec(&c) == Ordering::Less {
        assert(c.partial_cmp_spec(&a) == Some(Ordering::Greater));
        if b.cmp_spec(&c) == Ordering::Equal {
            assert(b.eq_spec(&c));
            if a.cmp_spec(&b) == Ordering::Equal {
                assert(a.eq_spec(&b));
                assert(a.eq_spec(&c));
            } else {
                assert(c.partial_cmp_spec(&b) == Some(Ordering::Less));
            }
        } else {
            assert(c.partial_cmp_spec(&b) == Some(Ordering::Less));
            if a.cmp_spec(&b) == Ordering::Equal {
                assert(a.eq_spec(&b));
                assert(b.eq_spec(&a));
            }
        }
    }
}

/// Compares two priorities the way the heaps order them.
pub fn priority_less<T: Ord>(a: &T, b: &T) -> (r: bool)
    requires
        total_order::<T>(),
    ensures
        r == (a.cmp_spec(b) == Ordering::Less),
        !r == ranks_ge(*a, *b),
{
    proof {
        lemma_order_basics::<T>();
    }
    match a.cmp(b) {
        Ordering::Less => true,
        _ => false,
    }
}

// ---------------------------------------------------------------------------
// Owners and move reports
// ---------------------------------------------------------------------------

/// No two slots hold the same owner reference.
pub open spec fn owners_unique<T>(s: Seq<HeapEntry<T>>) -> bool {
    forall|i: int, j: int|
        0 <= i < s.len() && 0 <= j < s.len() && i != j ==> s[i].outer_pos != s[j].outer_pos
}

/// Some slot holds `owner`.
pub open spec fn holds_owner<T>(s: Seq<HeapEntry<T>>, owner: MediatorIndex) -> bool {
    exists|i: int| 0 <= i < s.len() && #[trigger] s[i].outer_pos == owner
}

/// The position that the latest report about `owner` names, if any.
pub open spec fn last_report(moves: Seq<Move>, owner: MediatorIndex) -> Option<HeapIndex>
    decreases moves.len(),
{
    if moves.len() == 0 {
        None
    } else if moves.last().0 == owner {
        Some(moves.last().1)
    } else {
        last_report(moves.drop_last(), owner)
    }
}

/// Slot `i` of `after` can be found from `moves`: either the latest report
/// for its owner names `i`, or no report names its owner and the owner sat
/// in slot `i` already in `before`.
pub open spec fn slot_tracked<T>(
    before: Seq<HeapEntry<T>>,
    after: Seq<HeapEntry<T>>,
    moves: Seq<Move>,
    i: int,
) -> bool {
    match last_report(moves, after[i].outer_pos) {
        Some(p) => p.0 == i,
        None => i < before.len() && before[i].outer_pos == after[i].outer_pos,
    }
}

/// Every slot but `hole` is tracked.
pub open spec fn tracked_except<T>(
    before: Seq<HeapEntry<T>>,
    after: Seq<HeapEntry<T>>,
    moves: Seq<Move>,
    hole: int,
) -> bool {
    forall|i: int| 0 <= i < after.len() && i != hole ==> #[trigger] slot_tracked(before, after, moves, i)
}

/// Every slot of `after` is tracked by `moves`.
pub open spec fn moves_track<T>(
    before: Seq<HeapEntry<T>>,
    after: Seq<HeapEntry<T>>,
    moves: Seq<Move>,
) -> bool {
    forall|i: int| 0 <= i < after.len() ==> #[trigger] slot_tracked(before, after, moves, i)
}

/// Every slot of `after` that is new, or holds another owner than in
/// `before`, is named by a report of its owner.
pub open spec fn changed_slots_reported<T>(
    before: Seq<HeapEntry<T>>,
    after: Seq<HeapEntry<T>>,
    moves: Seq<Move>,
) -> bool {
    forall|j: int|
        0 <= j < after.len() && (j >= before.len() || after[j].outer_pos != before[j].outer_pos)
            ==> moves.contains((#[trigger] after[j].outer_pos, HeapIndex(j as usize)))
}

proof fn lemma_last_report_contained(moves: Seq<Move>, owner: MediatorIndex)
    ensures
        last_report(moves, owner) matches Some(p) ==> moves.contains((owner, p)),
    decreases moves.len(),
{
    if moves.len() > 0 {
        if moves.last().0 == owner {
            assert(moves[moves.len() - 1] == (owner, moves.last().1));
        } else {
            lemma_last_report_contained(moves.drop_last(), owner);
            if let Some(p) = last_report(moves.drop_last(), owner) {
                let k = choose|k: int| 0 <= k < moves.drop_last().len() && moves.drop_last()[k] == (owner, p);
                assert(moves[k] == (owner, p));
            }
        }
    }
}

/// Tracked slots whose owner changed were reported.
pub proof fn lemma_tracked_changes_reported<T>(
    before: Seq<HeapEntry<T>>,
    after: Seq<HeapEntry<T>>,
    moves: Seq<Move>,
)
    requires
        moves_track(before, after, moves),
    ensures
        changed_slots_reported(before, after, moves),
{
    assert forall|j: int|
        0 <= j < after.len() && (j >= before.len() || after[j].outer_pos != before[j].outer_pos)
            implies moves.contains((#[trigger] after[j].outer_pos, HeapIndex(j as usize))) by {
        assert(slot_tracked(before, after, moves, j));
        lemma_last_report_contained(moves, after[j].outer_pos);
    }
}

/// The report names a slot of `s` that holds the reported owner.
pub open spec fn report_holds<T>(s: Seq<HeapEntry<T>>, m: Move) -> bool {
    m.1.0 < s.len() && s[m.1.0 as int].outer_pos == m.0
}

/// Every report names a slot of `s` that holds the reported owner.
pub open spec fn reports_accurate<T>(s: Seq<HeapEntry<T>>, moves: Seq<Move>) -> bool {
    forall|k: int| 0 <= k < moves.len() ==> #[trigger] report_holds(s, moves[k])
}

/// Every report names a slot after `h`.
pub open spec fn reports_after(moves: Seq<Move>, h: int) -> bool {
    forall|k: int| 0 <= k < moves.len() ==> (#[trigger] moves[k]).1.0 > h
}

/// Every report names a slot before `h`.
pub open spec fn reports_before(moves: Seq<Move>, h: int) -> bool {
    forall|k: int| 0 <= k < moves.len() ==> (#[trigger] moves[k]).1.0 < h
}

/// Trading two slots that no report names keeps the reports accurate.
pub proof fn lemma_reports_swap<T>(s: Seq<HeapEntry<T>>, moves: Seq<Move>, a: int, b: int)
    requires
        0 <= a < s.len(),
        0 <= b < s.len(),
        reports_accurate(s, moves),
        forall|k: int| 0 <= k < moves.len() ==> (#[trigger] moves[k]).1.0 != a && moves[k].1.0 != b,
    ensures
        reports_accurate(swapped(s, a, b), moves),
{
    assert forall|k: int| 0 <= k < moves.len() implies #[trigger] report_holds(swapped(s, a, b), moves[k]) by {
        assert(report_holds(s, moves[k]));
    }
}

/// An accurate report added to accurate ones.
pub proof fn lemma_reports_push<T>(s: Seq<HeapEntry<T>>, moves: Seq<Move>, m: Move)
    requires
        reports_accurate(s, moves),
        report_holds(s, m),
    ensures
        reports_accurate(s, moves.push(m)),
{
    assert forall|k: int| 0 <= k < moves.len() + 1 implies #[trigger] report_holds(s, moves.push(m)[k]) by {
        if k < moves.len() {
            assert(moves.push(m)[k] == moves[k]);
            assert(report_holds(s, moves[k]));
        }
    }
}

pub proof fn lemma_reports_after_push(moves: Seq<Move>, m: Move, h: int, h2: int)
    requires
        reports_after(moves, h),
        h2 <= h,
        m.1.0 > h2,
    ensures
        reports_after(moves.push(m), h2),
        reports_after(moves, h2),
{
    assert forall|k: int| 0 <= k < moves.len() + 1 implies (#[trigger] moves.push(m)[k]).1.0 > h2 by {
        if k < moves.len() {
            assert(moves.push(m)[k] == moves[k]);
        }
    }
}

pub proof fn lemma_reports_before_push(moves: Seq<Move>, m: Move, h: int, h2: int)
    requires
        reports_before(moves, h),
        h2 >= h,
        m.1.0 < h2,
    ensures
        reports_before(moves.push(m), h2),
{
    assert forall|k: int| 0 <= k < moves.len() + 1 implies (#[trigger] moves.push(m)[k]).1.0 < h2 by {
        if k < moves.len() {
            assert(moves.push(m)[k] == moves[k]);
        }
    }
}

/// The reports that were appended to a log since it had `start` items.
pub open spec fn appended(log: Seq<Move>, start: int) -> Seq<Move> {
    log.subrange(start, log.len() as int)
}

/// An indirection table: owner reference to position.
pub open spec fn table_matches<T>(table: Map<MediatorIndex, HeapIndex>, s: Seq<HeapEntry<T>>) -> bool {
    forall|i: int|
        0 <= i < s.len() ==> #[trigger] table.contains_key(s[i].outer_pos) && table[s[i].outer_pos].0
            == i
}

/// The table after each report, in order, overwrote its owner's position.
pub open spec fn apply_moves(table: Map<MediatorIndex, HeapIndex>, moves: Seq<Move>) -> Map<
    MediatorIndex,
    HeapIndex,
>
    decreases moves.len(),
{
    if moves.len() == 0 {
        table
    } else {
        apply_moves(table, moves.drop_last()).insert(moves.last().0, moves.last().1)
    }
}

pub open spec fn swapped<A>(s: Seq<A>, i: int, j: int) -> Seq<A> {
    s.update(i, s[j]).update(j, s[i])
}

/// Relies on `<[T]>::swap`: the two elements trade places, the rest stay.
#[verifier::external_body]
pub(crate) fn swap_slots<T>(v: &mut Vec<T>, i: usize, j: usize)
    requires
        i < old(v)@.len(),
        j < old(v)@.len(),
    ensures
        final(v)@ == swapped(old(v)@, i as int, j as int),
{
    v.swap(i, j)
}

/// Appends one report to a move log.
pub(crate) fn report(log: &mut Vec<Move>, owner: MediatorIndex, position: usize)
    ensures
        final(log)@ == old(log)@.push((owner, HeapIndex(position))),
{
    log.push((owner, HeapIndex(position)));
}

pub proof fn lemma_last_report_push(moves: Seq<Move>, m: Move, owner: MediatorIndex)
    ensures
        last_report(moves.push(m), owner) == if m.0 == owner {
            Some(m.1)
        } else {
            last_report(moves, owner)
        },
{
    assert(moves.push(m).drop_last() =~= moves);
}

pub proof fn lemma_appended_push(log: Seq<Move>, start: int, m: Move)
    requires
        0 <= start <= log.len(),
    ensures
        appended(log.push(m), start) == appended(log, start).push(m),
        log.push(m).subrange(0, start) == log.subrange(0, start),
{
    assert(appended(log.push(m), start) =~= appended(log, start).push(m));
    assert(log.push(m).subrange(0, start) =~= log.subrange(0, start));
}

pub proof fn lemma_swap_multiset<A>(s: Seq<A>, i: int, j: int)
    requires
        0 <= i < s.len(),
        0 <= j < s.len(),
    ensures
        swapped(s, i, j).to_multiset() == s.to_multiset(),
        swapped(s, i, j).len() == s.len(),
{
    broadcast use vstd::multiset::group_multiset_properties;

    let s1 = s.update(i, s[j]);
    vstd::seq_lib::to_multiset_update(s, i, s[j]);
    vstd::seq_lib::to_multiset_update(s1, j, s[i]);
    if i == j {
        assert(swapped(s, i, j) =~= s);
    } else {
        assert(s1[j] == s[j]);
        assert(swapped(s, i, j).to_multiset() =~= s.to_multiset());
    }
}

pub proof fn lemma_update_multiset<A>(s: Seq<A>, i: int, v: A)
    requires
        0 <= i < s.len(),
    ensures
        s.update(i, v).to_multiset() == s.to_multiset().remove(s[i]).insert(v),
{
    broadcast use vstd::multiset::group_multiset_properties;

    vstd::seq_lib::to_multiset_update(s, i, v);
    assert(s.to_multiset().count(s[i]) > 0);
    assert(s.to_multiset().insert(v).remove(s[i]) =~= s.to_multiset().remove(s[i]).insert(v));
}

/// Moving the last element into slot `i` and dropping the last slot
/// removes the element that was in slot `i`, and keeps owners unique.
pub proof fn lemma_swap_remove<T>(s: Seq<HeapEntry<T>>, i: int)
    requires
        0 <= i < s.len() - 1,
        owners_unique(s),
    ensures
        ({
            let t = s.subrange(0, s.len() - 1).update(i, s[s.len() - 1]);
            &&& t.to_multiset() == s.to_multiset().remove(s[i])
            &&& owners_unique(t)
            &&& forall|j: int| 0 <= j < t.len() && j != i ==> #[trigger] t[j] == s[j]
        }),
{
    let n = s.len() - 1;
    let t = s.subrange(0, n).update(i, s[n]);
    let w = swapped(s, i, n);
    lemma_swap_multiset(s, i, n);
    vstd::seq_lib::to_multiset_remove(w, n);
    assert(w.remove(n) =~= t);
    assert forall|a: int, b: int|
        0 <= a < t.len() && 0 <= b < t.len() && a != b implies t[a].outer_pos != t[b].outer_pos by {
        let sa = if a == i {
            n
        } else {
            a
        };
        let sb = if b == i {
            n
        } else {
            b
        };
        assert(t[a] == s[sa]);
        assert(t[b] == s[sb]);
    }
}

/// Trading the contents of two slots keeps owners unique.
pub proof fn lemma_swap_unique<T>(s: Seq<HeapEntry<T>>, a: int, b: int)
    requires
        0 <= a < s.len(),
        0 <= b < s.len(),
        owners_unique(s),
    ensures
        owners_unique(swapped(s, a, b)),
{
    let t = swapped(s, a, b);
    assert forall|i: int, j: int|
        0 <= i < t.len() && 0 <= j < t.len() && i != j implies t[i].outer_pos != t[j].outer_pos by {
        let si = if i == b {
            a
        } else if i == a {
            b
        } else {
            i
        };
        let sj = if j == b {
            a
        } else if j == a {
            b
        } else {
            j
        };
        assert(t[i] == s[si]);
        assert(t[j] == s[sj]);
    }
}

/// Trading the contents of `hole` and `other`, then reporting the entry
/// that lands in `hole`, moves the one untracked slot to `other`.
pub proof fn lemma_swap_and_report<T>(
    before: Seq<HeapEntry<T>>,
    s: Seq<HeapEntry<T>>,
    log: Seq<Move>,
    start: int,
    hole: int,
    other: int,
)
    requires
        0 <= start <= log.len(),
        0 <= hole < s.len() <= usize::MAX,
        0 <= other < s.len(),
        owners_unique(s),
        tracked_except(before, s, appended(log, start), hole),
    ensures
        ({
            let t = swapped(s, hole, other);
            let log2 = log.push((t[hole].outer_pos, HeapIndex(hole as usize)));
            &&& owners_unique(t)
            &&& t.to_multiset() == s.to_multiset()
            &&& t.len() == s.len()
            &&& tracked_except(before, t, appended(log2, start), other)
        }),
{
    let t = swapped(s, hole, other);
    let m = (t[hole].outer_pos, HeapIndex(hole as usize));
    let log2 = log.push(m);
    lemma_swap_multiset(s, hole, other);
    lemma_swap_unique(s, hole, other);
    lemma_appended_push(log, start, m);
    assert forall|i: int| 0 <= i < t.len() && i != other implies #[trigger] slot_tracked(
        before,
        t,
        appended(log2, start),
        i,
    ) by {
        lemma_last_report_push(appended(log, start), m, t[i].outer_pos);
        if i != hole {
            assert(t[i] == s[i]);
            assert(s[i].outer_pos != s[other].outer_pos);
            assert(slot_tracked(before, s, appended(log, start), i));
        }
    }
}

/// Trading the contents of the untracked slot `hole` with slot `c`, then
/// reporting the entry that lands in `c`, keeps `hole` the one untracked slot.
pub proof fn lemma_swap_into_hole<T>(
    before: Seq<HeapEntry<T>>,
    s: Seq<HeapEntry<T>>,
    log: Seq<Move>,
    start: int,
    hole: int,
    c: int,
)
    requires
        0 <= start <= log.len(),
        0 <= hole < s.len(),
        0 <= c < s.len() <= usize::MAX,
        owners_unique(s),
        tracked_except(before, s, appended(log, start), hole),
    ensures
        ({
            let t = swapped(s, c, hole);
            let log2 = log.push((t[c].outer_pos, HeapIndex(c as usize)));
            &&& owners_unique(t)
            &&& t.to_multiset() == s.to_multiset()
            &&& t.len() == s.len()
            &&& tracked_except(before, t, appended(log2, start), hole)
            &&& log2.subrange(0, start) == log.subrange(0, start)
        }),
{
    let t = swapped(s, c, hole);
    let m = (t[c].outer_pos, HeapIndex(c as usize));
    let log2 = log.push(m);
    lemma_swap_multiset(s, c, hole);
    lemma_swap_unique(s, c, hole);
    lemma_appended_push(log, start, m);
    assert forall|i: int| 0 <= i < t.len() && i != hole implies #[trigger] slot_tracked(
        before,
        t,
        appended(log2, start),
        i,
    ) by {
        lemma_last_report_push(appended(log, start), m, t[i].outer_pos);
        if i != c {
            assert(t[i] == s[i]);
            assert(s[i].outer_pos != s[hole].outer_pos);
            assert(slot_tracked(before, s, appended(log, start), i));
        }
    }
}

/// Reporting the entry in the one untracked slot makes every slot tracked.
pub proof fn lemma_settle<T>(
    before: Seq<HeapEntry<T>>,
    s: Seq<HeapEntry<T>>,
    log: Seq<Move>,
    start: int,
    hole: int,
)
    requires
        0 <= start <= log.len(),
        0 <= hole < s.len() <= usize::MAX,
        owners_unique(s),
        tracked_except(before, s, appended(log, start), hole),
    ensures
        moves_track(before, s, appended(log.push((s[hole].outer_pos, HeapIndex(hole as usize))), start)),
{
    let m = (s[hole].outer_pos, HeapIndex(hole as usize));
    lemma_appended_push(log, start, m);
    assert forall|i: int| 0 <= i < s.len() implies #[trigger] slot_tracked(
        before,
        s,
        appended(log.push(m), start),
        i,
    ) by {
        lemma_last_report_push(appended(log, start), m, s[i].outer_pos);
        if i != hole {
            assert(s[i].outer_pos != s[hole].outer_pos);
            assert(slot_tracked(before, s, appended(log, start), i));
        }
    }
}

/// Same contents, same owners.
pub proof fn lemma_owners_same<T>(s: Seq<HeapEntry<T>>, t: Seq<HeapEntry<T>>)
    requires
        t.to_multiset() == s.to_multiset(),
    ensures
        forall|o: MediatorIndex| holds_owner(t, o) <==> holds_owner(s, o),
{
    assert forall|o: MediatorIndex| holds_owner(t, o) <==> holds_owner(s, o) by {
        lemma_holds_owner_in_contents(s, o);
        lemma_holds_owner_in_contents(t, o);
    }
}

/// Adding an entry adds its owner.
pub proof fn lemma_owners_insert<T>(s: Seq<HeapEntry<T>>, t: Seq<HeapEntry<T>>, e: HeapEntry<T>)
    requires
        t.to_multiset() == s.to_multiset().insert(e),
    ensures
        forall|o: MediatorIndex| holds_owner(t, o) <==> (holds_owner(s, o) || o == e.outer_pos),
{
    broadcast use vstd::multiset::group_multiset_axioms;

    assert forall|o: MediatorIndex| holds_owner(t, o) <==> (holds_owner(s, o) || o == e.outer_pos) by {
        lemma_holds_owner_in_contents(s, o);
        lemma_holds_owner_in_contents(t, o);
        if o == e.outer_pos {
            assert(t.to_multiset().count(e) > 0);
        }
        if holds_owner(s, o) {
            let f = choose|f: HeapEntry<T>| #[trigger] s.to_multiset().count(f) > 0 && f.outer_pos == o;
            assert(t.to_multiset().count(f) > 0);
        }
        if holds_owner(t, o) && o != e.outer_pos {
            let f = choose|f: HeapEntry<T>| #[trigger] t.to_multiset().count(f) > 0 && f.outer_pos == o;
            assert(s.to_multiset().count(f) > 0);
        }
    }
}

/// Removing the entry of slot `i` removes its owner, owners being unique.
pub proof fn lemma_owners_remove<T>(s: Seq<HeapEntry<T>>, t: Seq<HeapEntry<T>>, i: int)
    requires
        0 <= i < s.len(),
        owners_unique(s),
        t.to_multiset() == s.to_multiset().remove(s[i]),
    ensures
        forall|o: MediatorIndex|
            holds_owner(t, o) <==> (holds_owner(s, o) && o != s[i].outer_pos),
{
    broadcast use vstd::multiset::group_multiset_axioms;

    assert forall|o: MediatorIndex| holds_owner(t, o) <==> (holds_owner(s, o) && o != s[i].outer_pos) by {
        lemma_holds_owner_in_contents(s, o);
        lemma_holds_owner_in_contents(t, o);
        if holds_owner(s, o) && o != s[i].outer_pos {
            let k = choose|k: int| 0 <= k < s.len() && #[trigger] s[k].outer_pos == o;
            assert(s.contains(s[k]));
            assert(s[k] != s[i]);
            assert(t.to_multiset().count(s[k]) > 0);
        }
        if holds_owner(t, o) {
            let f = choose|f: HeapEntry<T>| #[trigger] t.to_multiset().count(f) > 0 && f.outer_pos == o;
            assert(s.to_multiset().count(f) > 0);
            if f.outer_pos == s[i].outer_pos {
                assert(s.contains(f));
                let k = choose|k: int| 0 <= k < s.len() && s[k] == f;
                assert(k == i);
                assert(s.to_multiset().count(f) == 1) by {
                    assert forall|a: int, b: int|
                        0 <= a < s.len() && 0 <= b < s.len() && a != b implies s[a] != s[b] by {
                        assert(s[a].outer_pos != s[b].outer_pos);
                    }
                    assert(s.no_duplicates());
                    s.lemma_multiset_has_no_duplicates();
                }
            }
        }
    }
}

// ---------------------------------------------------------------------------
// The addressable-heap contract
// ---------------------------------------------------------------------------

/// An array-backed max-heap whose entries can be removed or re-prioritized
/// by position. Every operation that moves entries appends, to a move log,
/// one report `(owner, position)` for each entry that it moved, the last
/// report about an owner naming where its entry rests.
pub trait EditableHeap<TPriority: Ord>: Sized {
    /// The slots in array order.
    spec fn entries(&self) -> Seq<HeapEntry<TPriority>>;

    /// The heap's internal invariant, which includes unique owners.
    spec fn well_formed(&self) -> bool;

    /// One flag per slot for a backend that keeps side bits beside its
    /// entries (`true` for a bit set to its second value); all `false` for
    /// a backend that keeps none.
    spec fn side_marks(&self) -> Seq<bool>;

    /// Slot `a` is slot `i` or one of its ancestors in the binary tree that
    /// the backend lays over its array.
    spec fn is_above(a: int, i: int) -> bool;

    /// The slots that a bulk build makes of `base`.
    spec fn build_layout(base: Seq<HeapEntry<TPriority>>) -> Seq<HeapEntry<TPriority>>;

    /// The side marks that a bulk build of `base` leaves.
    spec fn build_marks(base: Seq<HeapEntry<TPriority>>) -> Seq<bool>;

    /// The slots and side marks after pushing `e`.
    spec fn after_push(&self, e: HeapEntry<TPriority>) -> (Seq<HeapEntry<TPriority>>, Seq<bool>);

    /// The slots and side marks after removing slot `pos`, which is in range.
    spec fn after_remove(&self, pos: int) -> (Seq<HeapEntry<TPriority>>, Seq<bool>);

    /// The slots and side marks after giving slot `pos` the priority
    /// `updated`.
    spec fn after_change(&self, pos: int, updated: TPriority) -> (
        Seq<HeapEntry<TPriority>>,
        Seq<bool>,
    );

    /// Builds a heap from entries in any order. Owner references must be
    /// unique.
    fn from_entries_vec(heap_base: Vec<HeapEntry<TPriority>>) -> (heap: Self)
        requires
            total_order::<TPriority>(),
            owners_unique(heap_base@),
        ensures
            heap.well_formed(),
            owners_unique(heap.entries()),
            heap.entries().to_multiset() == heap_base@.to_multiset(),
            heap.entries().len() == heap_base@.len(),
            forall|o: MediatorIndex| holds_owner(heap.entries(), o) <==> holds_owner(heap_base@, o),
            heap.entries() == Self::build_layout(heap_base@),
            heap.side_marks() == Self::build_marks(heap_base@),
    ;

    /// A capacity hint: the contents do not change.
    fn reserve(&mut self, additional: usize)
        requires
            old(self).well_formed(),
        ensures
            final(self).well_formed(),
            final(self).entries() == old(self).entries(),
    ;

    /// Puts outer index and priority in the queue. `outer_pos` must not be
    /// held already: this is not checked, because checking costs too much.
    /// Reports every entry moved, the new one included even where it stays;
    /// every report names the slot where its owner rests on return.
    fn push(
        &mut self,
        outer_pos: MediatorIndex,
        priority: TPriority,
        changes: &mut Vec<Move>,
    )
        requires
            total_order::<TPriority>(),
            old(self).well_formed(),
            !holds_owner(old(self).entries(), outer_pos),
            old(self).entries().len() < usize::MAX,
        ensures
            final(self).well_formed(),
            owners_unique(final(self).entries()),
            final(self).entries().to_multiset() == old(self).entries().to_multiset().insert(
                HeapEntry { outer_pos, priority },
            ),
            final(self).entries().len() == old(self).entries().len() + 1,
            (final(self).entries(), final(self).side_marks()) == old(self).after_push(
                HeapEntry { outer_pos, priority },
            ),
            forall|o: MediatorIndex|
                holds_owner(final(self).entries(), o) <==> (holds_owner(old(self).entries(), o) || o
                    == outer_pos),
            final(changes)@.subrange(0, old(changes)@.len() as int) == old(changes)@,
            moves_track(
                old(self).entries(),
                final(self).entries(),
                appended(final(changes)@, old(changes)@.len() as int),
            ),
            reports_accurate(final(self).entries(), appended(final(changes)@, old(changes)@.len() as int)),
            changed_slots_reported(
                old(self).entries(),
                final(self).entries(),
                appended(final(changes)@, old(changes)@.len() as int),
            ),
    ;

    /// Removes the entry at `position` and returns its owner and priority;
    /// `None`, with nothing changed, where `position` is out of range. The
    /// last slot is popped directly; any other is filled with the last
    /// entry, which is then sifted up where it outranks its ancestor and
    /// down otherwise. Removing slot 0 removes an entry that outranks every
    /// entry left.
    fn remove(&mut self, position: HeapIndex, changes: &mut Vec<Move>) -> (r: Option<
        (MediatorIndex, TPriority),
    >)
        requires
            total_order::<TPriority>(),
            old(self).well_formed(),
        ensures
            final(self).well_formed(),
            owners_unique(final(self).entries()),
            position.0 >= old(self).entries().len() ==> r is None && final(self).entries() == old(
                self,
            ).entries() && final(self).side_marks() == old(self).side_marks() && final(changes)@
                == old(changes)@,
            position.0 < old(self).entries().len() ==> {
                let e = old(self).entries()[position.0 as int];
                &&& r == Some((e.outer_pos, e.priority))
                &&& (final(self).entries(), final(self).side_marks()) == old(self).after_remove(
                    position.0 as int,
                )
                &&& final(self).entries().to_multiset() == old(self).entries().to_multiset().remove(e)
                &&& final(self).entries().len() == old(self).entries().len() - 1
                &&& forall|o: MediatorIndex|
                    holds_owner(final(self).entries(), o) <==> (holds_owner(old(self).entries(), o)
                        && o != e.outer_pos)
                &&& forall|k: int|
                    0 <= k < appended(final(changes)@, old(changes)@.len() as int).len() ==> (
                    #[trigger] appended(final(changes)@, old(changes)@.len() as int)[k]).0
                        != e.outer_pos
            },
            position.0 + 1 == old(self).entries().len() ==> {
                &&& final(self).entries() == old(self).entries().subrange(
                    0,
                    old(self).entries().len() - 1,
                )
                &&& final(self).side_marks() == old(self).side_marks().subrange(
                    0,
                    old(self).entries().len() - 1,
                )
                &&& final(changes)@ == old(changes)@
            },
            position.0 == 0 && old(self).entries().len() > 0 ==> forall|i: int|
                0 <= i < final(self).entries().len() ==> ranks_ge(
                    old(self).entries()[0].priority,
                    #[trigger] final(self).entries()[i].priority,
                ),
            final(changes)@.subrange(0, old(changes)@.len() as int) == old(changes)@,
            moves_track(
                old(self).entries(),
                final(self).entries(),
                appended(final(changes)@, old(changes)@.len() as int),
            ),
            reports_accurate(final(self).entries(), appended(final(changes)@, old(changes)@.len() as int)),
            changed_slots_reported(
                old(self).entries(),
                final(self).entries(),
                appended(final(changes)@, old(changes)@.len() as int),
            ),
    ;

    /// The slots in array order, read-only.
    fn data(&self) -> (r: &[HeapEntry<TPriority>])
        ensures
            r@ == self.entries(),
    ;

    fn len(&self) -> (r: HeapIndex)
        ensures
            r.0 == self.entries().len(),
    {
        HeapIndex(self.data().len())
    }

    fn is_empty(&self) -> (r: bool)
        ensures
            r == (self.entries().len() == 0),
    {
        self.data().len() == 0
    }

    /// Changes the owner reference of the entry at `position` and returns
    /// the old one. `outer_pos` must not be held by another slot.
    fn change_outer_pos(&mut self, outer_pos: MediatorIndex, position: HeapIndex) -> (r:
        MediatorIndex)
        requires
            old(self).well_formed(),
            position.0 < old(self).entries().len(),
            forall|i: int|
                0 <= i < old(self).entries().len() && i != position.0 ==> #[trigger] old(
                    self,
                ).entries()[i].outer_pos != outer_pos,
        ensures
            final(self).well_formed(),
            r == old(self).entries()[position.0 as int].outer_pos,
            final(self).entries() == old(self).entries().update(
                position.0 as int,
                HeapEntry { outer_pos, priority: old(self).entries()[position.0 as int].priority },
            ),
            final(self).side_marks() == old(self).side_marks(),
    ;

    /// Changes the priority of the entry at `position` and returns the old
    /// priority. An increase sifts the entry up, changing only slots on its
    /// path to the root; a decrease sifts it down, changing only slots below
    /// it; an equal priority moves nothing and reports nothing. A changed
    /// priority always reports the entry, at the slot where it rests.
    fn change_priority(
        &mut self,
        position: HeapIndex,
        updated: TPriority,
        changes: &mut Vec<Move>,
    ) -> (r: TPriority)
        requires
            total_order::<TPriority>(),
            old(self).well_formed(),
            position.0 < old(self).entries().len(),
        ensures
            ({
                let e = old(self).entries()[position.0 as int];
                let e2 = HeapEntry { outer_pos: e.outer_pos, priority: updated };
                &&& r == e.priority
                &&& (final(self).entries(), final(self).side_marks()) == old(self).after_change(
                    position.0 as int,
                    updated,
                )
                &&& final(self).well_formed()
                &&& owners_unique(final(self).entries())
                &&& final(self).entries().to_multiset() == old(
                    self,
                ).entries().to_multiset().remove(e).insert(e2)
                &&& final(self).entries().len() == old(self).entries().len()
                &&& forall|o: MediatorIndex|
                    holds_owner(final(self).entries(), o) <==> holds_owner(old(self).entries(), o)
                &&& final(changes)@.subrange(0, old(changes)@.len() as int) == old(changes)@
                &&& moves_track(
                    old(self).entries(),
                    final(self).entries(),
                    appended(final(changes)@, old(changes)@.len() as int),
                )
                &&& reports_accurate(
                    final(self).entries(),
                    appended(final(changes)@, old(changes)@.len() as int),
                )
                &&& changed_slots_reported(
                    old(self).entries(),
                    final(self).entries(),
                    appended(final(changes)@, old(changes)@.len() as int),
                )
                &&& e.priority.cmp_spec(&updated) != Ordering::Equal ==> exists|k: int|
                    0 <= k < appended(final(changes)@, old(changes)@.len() as int).len() && (
                    #[trigger] appended(final(changes)@, old(changes)@.len() as int)[k]).0
                        == e.outer_pos
                &&& e.priority.cmp_spec(&updated) == Ordering::Equal ==> {
                    &&& final(self).entries() == old(self).entries().update(position.0 as int, e2)
                    &&& final(self).side_marks() == old(self).side_marks()
                    &&& final(changes)@ == old(changes)@
                }
                &&& e.priority.cmp_spec(&updated) == Ordering::Less ==> forall|i: int|
                    0 <= i < old(self).entries().len() && !Self::is_above(i, position.0 as int) ==> {
                        &&& #[trigger] final(self).entries()[i] == old(self).entries()[i]
                        &&& final(self).side_marks()[i] == old(self).side_marks()[i]
                    }
                &&& e.priority.cmp_spec(&updated) == Ordering::Greater ==> forall|i: int|
                    0 <= i < old(self).entries().len() && !Self::is_above(position.0 as int, i) ==> {
                        &&& #[trigger] final(self).entries()[i] == old(self).entries()[i]
                        &&& final(self).side_marks()[i] == old(self).side_marks()[i]
                    }
            }),
    ;

    /// The owner and position of the most prioritized entry: slot 0, whose
    /// entry outranks every entry.
    fn most_prioritized_idx(&self) -> (r: Option<(MediatorIndex, HeapIndex)>)
        ensures
            self.entries().len() == 0 ==> r is None,
            self.entries().len() > 0 ==> r == Some((self.entries()[0].outer_pos, HeapIndex(0))),
            self.well_formed() && total_order::<TPriority>() ==> forall|i: int|
                0 <= i < self.entries().len() ==> ranks_ge(
                    self.entries()[0].priority,
                    #[trigger] self.entries()[i].priority,
                ),
    ;

    /// Empties the heap.
    fn clear(&mut self)
        ensures
            final(self).well_formed(),
            final(self).entries().len() == 0,
    ;
}

/// Where slot 0 outranks every entry, it outranks every entry left once it
/// is removed.
pub proof fn lemma_max_outranks_rest<T: Ord>(heap: Seq<HeapEntry<T>>, rest: Seq<HeapEntry<T>>)
    requires
        heap.len() > 0,
        forall|i: int| 0 <= i < heap.len() ==> ranks_ge(heap[0].priority, #[trigger] heap[i].priority),
        rest.to_multiset() == heap.to_multiset().remove(heap[0]),
    ensures
        forall|i: int| 0 <= i < rest.len() ==> ranks_ge(heap[0].priority, #[trigger] rest[i].priority),
{
    broadcast use vstd::multiset::group_multiset_properties;

    assert forall|i: int| 0 <= i < rest.len() implies ranks_ge(
        heap[0].priority,
        #[trigger] rest[i].priority,
    ) by {
        assert(rest.contains(rest[i]));
        assert(rest.to_multiset().count(rest[i]) > 0);
        assert(heap.to_multiset().count(rest[i]) > 0);
        assert(heap.contains(rest[i]));
        let k = choose|k: int| 0 <= k < heap.len() && heap[k] == rest[i];
        assert(ranks_ge(heap[0].priority, heap[k].priority));
    }
}

// ---------------------------------------------------------------------------
// Laws shared by both backends
// ---------------------------------------------------------------------------

/// An owner is held exactly when the contents hold an entry of it.
pub proof fn lemma_holds_owner_in_contents<T>(s: Seq<HeapEntry<T>>, owner: MediatorIndex)
    ensures
        holds_owner(s, owner) <==> exists|e: HeapEntry<T>|
            #[trigger] s.to_multiset().count(e) > 0 && e.outer_pos == owner,
{
    if holds_owner(s, owner) {
        let i = choose|i: int| 0 <= i < s.len() && #[trigger] s[i].outer_pos == owner;
        assert(s.contains(s[i]));
        assert(s.to_multiset().count(s[i]) > 0);
    }
    if exists|e: HeapEntry<T>| #[trigger] s.to_multiset().count(e) > 0 && e.outer_pos == owner {
        let e = choose|e: HeapEntry<T>| #[trigger] s.to_multiset().count(e) > 0 && e.outer_pos == owner;
        assert(s.contains(e));
        let i = choose|i: int| 0 <= i < s.len() && s[i] == e;
        assert(s[i].outer_pos == owner);
    }
}

/// An indirection table that matched the heap before an operation matches
/// it afterwards once the operation's reports are applied in order.
pub proof fn lemma_table_follows_moves<T>(
    table: Map<MediatorIndex, HeapIndex>,
    before: Seq<HeapEntry<T>>,
    after: Seq<HeapEntry<T>>,
    moves: Seq<Move>,
)
    requires
        table_matches(table, before),
        moves_track(before, after, moves),
    ensures
        table_matches(apply_moves(table, moves), after),
{
    assert forall|i: int| 0 <= i < after.len() implies #[trigger] apply_moves(
        table,
        moves,
    ).contains_key(after[i].outer_pos) && apply_moves(table, moves)[after[i].outer_pos].0 == i by {
        assert(slot_tracked(before, after, moves, i));
        lemma_apply_moves_lookup(table, moves, after[i].outer_pos);
        if last_report(moves, after[i].outer_pos) is None {
            assert(table.contains_key(before[i].outer_pos));
        }
    }
}

proof fn lemma_apply_moves_lookup(
    table: Map<MediatorIndex, HeapIndex>,
    moves: Seq<Move>,
    owner: MediatorIndex,
)
    ensures
        match last_report(moves, owner) {
            Some(p) => apply_moves(table, moves).contains_key(owner) && apply_moves(
                table,
                moves,
            )[owner] == p,
            None => apply_moves(table, moves).contains_key(owner) == table.contains_key(owner)
                && (table.contains_key(owner) ==> apply_moves(table, moves)[owner] == table[owner]),
        },
    decreases moves.len(),
{
    if moves.len() > 0 {
        lemma_apply_moves_lookup(table, moves.drop_last(), owner);
    }
}

/// Two heaps, of either backend, that hold the same entries hold the same
/// priority for an owner: so removing that owner's entry, or giving it a
/// new priority, leaves them holding the same entries again.
pub proof fn lemma_same_entries_same_owner_entry<T>(
    a: Seq<HeapEntry<T>>,
    b: Seq<HeapEntry<T>>,
    i: int,
    j: int,
    updated: T,
)
    requires
        a.to_multiset() == b.to_multiset(),
        owners_unique(a),
        owners_unique(b),
        0 <= i < a.len(),
        0 <= j < b.len(),
        a[i].outer_pos == b[j].outer_pos,
    ensures
        a[i] == b[j],
        a.to_multiset().remove(a[i]) == b.to_multiset().remove(b[j]),
        a.to_multiset().remove(a[i]).insert(HeapEntry { outer_pos: a[i].outer_pos, priority: updated })
            == b.to_multiset().remove(b[j]).insert(
            HeapEntry { outer_pos: b[j].outer_pos, priority: updated },
        ),
{
    assert(a.contains(a[i]));
    assert(b.to_multiset().count(a[i]) > 0);
    assert(b.contains(a[i]));
    let k = choose|k: int| 0 <= k < b.len() && b[k] == a[i];
    assert(k == j);
}

} // verus!
