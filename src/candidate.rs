//! Result collectors: what a search keeps of the items it visits.
//!
//! A search offers every visited item to a collector and prunes with the
//! collector's current bound. The proofs describe a collector by the map of
//! candidates it was offered (original index to distance) and by what its
//! output says of the map of all distances.
use vstd::prelude::*;

use crate::distance::{lemma_in_range, top, val, DistanceSpec, DistanceValue};
use crate::metric::MetricSpace;

verus! {

/// `seen` holds the candidates offered so far, and every item of `all` left
/// out of it is farther than `bound`; all distances lie in `0..=largest`.
pub open spec fn covers(seen: Map<int, int>, all: Map<int, int>, bound: int, largest: int) -> bool {
    &&& all.dom().finite()
    &&& forall|i: int| #[trigger] seen.contains_key(i) ==> all.contains_key(i) && seen[i] == all[i]
    &&& forall|i: int| #[trigger] all.contains_key(i) ==> 0 <= all[i] <= largest
    &&& forall|i: int| #[trigger] all.contains_key(i) && !seen.contains_key(i) ==> all[i] > bound
}

/// `v` holds the index `i`.
pub open spec fn holds_index(v: Seq<usize>, i: int) -> bool {
    exists|a: int| 0 <= a < v.len() && v[a] as int == i
}

/// Collects the best candidates met during a search.
pub trait BestCandidate<Item: MetricSpace<Impl> + Clone, Impl>: Sized {
    /// What the search returns.
    type Output;

    /// The current bound, as an integer.
    closed spec fn bound(&self) -> int {
        arbitrary()
    }

    /// This collector is `start` after it was offered exactly the candidates
    /// of `seen`, each once. A collector that leaves this unspecified proves
    /// nothing of its searches.
    closed spec fn tracks(&self, start: Self, seen: Map<int, int>) -> bool {
        arbitrary()
    }

    /// `out` is a right answer for this collector's query, where `all` maps
    /// each original index to its distance from the needle.
    closed spec fn answers(&self, all: Map<int, int>, out: Self::Output) -> bool {
        arbitrary()
    }

    /// `next` is what this collector becomes when offered `distance` at
    /// `candidate_index`.
    closed spec fn step(&self, distance: Item::Distance, candidate_index: usize, next: Self) -> bool {
        arbitrary()
    }

    /// `out` is what `result` returns from this collector.
    closed spec fn produces(&self, out: Self::Output) -> bool {
        arbitrary()
    }

    /// What an output of a search started from this collector satisfies,
    /// whatever the distances.
    closed spec fn settles(&self, out: Self::Output) -> bool {
        arbitrary()
    }

    /// Offers an item at the given distance; the collector decides whether
    /// to keep it. The bound never grows.
    fn consider(
        &mut self,
        item: &Item,
        distance: Item::Distance,
        candidate_index: usize,
        user_data: &Item::UserData,
    )
        ensures
            old(self).step(distance, candidate_index, *final(self)),
            forall|start: Self, seen: Map<int, int>|
                #[trigger] old(self).tracks(start, seen) && !seen.contains_key(candidate_index as int)
                    ==> final(self).tracks(start, seen.insert(candidate_index as int, val(distance)))
                    && final(self).bound() <= old(self).bound(),
    ;

    /// The largest distance that could still improve the result.
    fn distance(&self) -> (r: Item::Distance)
        ensures
            val(r) == self.bound(),
    ;

    /// Called once, after the search has visited every relevant item.
    fn result(self, user_data: &Item::UserData) -> (r: Self::Output)
        ensures
            self.produces(r),
            forall|start: Self, seen: Map<int, int>| #[trigger] self.tracks(start, seen) ==> start.settles(r),
            forall|start: Self, seen: Map<int, int>, all: Map<int, int>|
                #![trigger self.tracks(start, seen), covers(seen, all, self.bound(), top::<Item::Distance>())]
                self.tracks(start, seen) && covers(seen, all, self.bound(), top::<Item::Distance>())
                    ==> start.answers(all, r),
    ;
}

/// Offering a candidate to a `B` leads to one state only.
pub open spec fn steps_uniquely<Item: MetricSpace<Impl> + Clone, Impl, B: BestCandidate<Item, Impl>>() -> bool {
    forall|s: B, d: Item::Distance, i: usize, n1: B, n2: B|
        #[trigger] s.step(d, i, n1) && #[trigger] s.step(d, i, n2) ==> n1 == n2
}

/// Keeps the single nearest item: its original index and its distance. It
/// starts from index 0 at the largest distance and takes an offer only when
/// it is strictly nearer, so of equally near items it keeps the first one
/// offered; a search offers the root's item, index 0, first.
pub struct ReturnByIndex<Item: MetricSpace<Impl>, Impl> {
    /// The distance of the nearest item so far.
    pub distance: Item::Distance,
    /// Its original index.
    pub idx: usize,
}

impl<Item: MetricSpace<Impl> + Clone, Impl> ReturnByIndex<Item, Impl> {
    /// A collector that has seen nothing yet: index 0 at the largest distance.
    pub fn new() -> (r: Self)
        ensures
            r == Self::initial(),
            val(r.distance) == top::<Item::Distance>(),
            r.tracks(r, Map::empty()),
    {
        ReturnByIndex { distance: Item::Distance::max_value(), idx: 0 }
    }

    /// The state of a new collector.
    pub open spec fn initial() -> Self {
        ReturnByIndex { distance: Item::Distance::spec_largest(), idx: 0 }
    }

    /// The original index and the distance that `result` returns.
    pub open spec fn kept(&self) -> (usize, Item::Distance) {
        (self.idx, self.distance)
    }

    /// The nearest-one collector moves to one state only on each offer.
    pub proof fn lemma_steps_uniquely()
        ensures
            steps_uniquely::<Item, Impl, Self>(),
    {
    }
}

impl<Item: MetricSpace<Impl> + Clone, Impl> BestCandidate<Item, Impl> for ReturnByIndex<Item, Impl> {
    type Output = (usize, Item::Distance);

    open spec fn bound(&self) -> int {
        val(self.distance)
    }

    open spec fn tracks(&self, start: Self, seen: Map<int, int>) -> bool {
        &&& seen.dom().finite()
        &&& val(self.distance) <= val(start.distance)
        &&& forall|i: int| #[trigger] seen.contains_key(i) ==> val(self.distance) <= seen[i]
        &&& (seen.contains_key(self.idx as int) && seen[self.idx as int] == val(self.distance)) || *self == start
    }

    open spec fn step(&self, distance: Item::Distance, candidate_index: usize, next: Self) -> bool {
        next == if val(distance) < val(self.distance) {
            ReturnByIndex { distance, idx: candidate_index }
        } else {
            *self
        }
    }

    open spec fn produces(&self, out: (usize, Item::Distance)) -> bool {
        out == self.kept()
    }

    open spec fn settles(&self, out: (usize, Item::Distance)) -> bool {
        val(out.1) <= val(self.distance)
    }

    open spec fn answers(&self, all: Map<int, int>, out: (usize, Item::Distance)) -> bool {
        &&& val(out.1) <= val(self.distance)
        &&& forall|i: int| #[trigger] all.contains_key(i) ==> val(out.1) <= all[i]
        &&& (all.contains_key(out.0 as int) && all[out.0 as int] == val(out.1)) || out == self.kept()
    }

    fn consider(
        &mut self,
        item: &Item,
        distance: Item::Distance,
        candidate_index: usize,
        user_data: &Item::UserData,
    ) {
        if distance.is_less(&self.distance) {
            *self = ReturnByIndex { distance, idx: candidate_index };
        }
        proof {
            assert forall|start: Self, seen: Map<int, int>|
                #[trigger] old(self).tracks(start, seen) && !seen.contains_key(
                    candidate_index as int,
                ) implies self.tracks(start, seen.insert(candidate_index as int, val(distance)))
                    && self.bound() <= old(self).bound() by {
                let s2 = seen.insert(candidate_index as int, val(distance));
                assert forall|i: int| #[trigger] s2.contains_key(i) implies val(self.distance)
                    <= s2[i] by {
                    if i != candidate_index as int {
                        assert(seen.contains_key(i));
                    }
                }
            }
        }
    }

    fn distance(&self) -> (r: Item::Distance) {
        self.distance
    }

    fn result(self, user_data: &Item::UserData) -> (r: (usize, Item::Distance)) {
        proof {
            assert forall|start: Self, seen: Map<int, int>, all: Map<int, int>|
                #![trigger self.tracks(start, seen), covers(seen, all, self.bound(), top::<Item::Distance>())]
                self.tracks(start, seen) && covers(
                    seen,
                    all,
                    self.bound(),
                    top::<Item::Distance>(),
                ) implies start.answers(all, (self.idx, self.distance)) by {
                assert(forall|i: int| #[trigger] all.contains_key(i) ==> val(self.distance) <= all[i]);
            }
        }
        (self.idx, self.distance)
    }
}

/// The list `l` holds the index `i`.
pub open spec fn lists_index<D>(l: Seq<(D, usize)>, i: int) -> bool {
    exists|a: int| 0 <= a < l.len() && #[trigger] l[a].1 as int == i
}

/// Smaller of two naturals.
pub open spec fn min_nat(a: nat, b: nat) -> nat {
    if a <= b {
        a
    } else {
        b
    }
}

/// Keeps the `k` nearest items, as original indexes by ascending distance.
/// Of equally near items, those offered first are kept and listed first.
pub struct KNearest<Item: MetricSpace<Impl>, Impl> {
    /// How many items are kept at most.
    pub max_item_count: usize,
    /// The kept pairs of distance and original index, nearest first.
    pub distance_x_index: Vec<(Item::Distance, usize)>,
}

impl<Item: MetricSpace<Impl> + Clone, Impl> KNearest<Item, Impl> {
    /// A collector for the `item_count` nearest items.
    pub fn new(item_count: usize) -> (r: Self)
        ensures
            r.count() == item_count,
            r.tracks(r, Map::empty()),
    {
        KNearest { max_item_count: item_count, distance_x_index: Vec::new() }
    }

    /// How many items this collector keeps at most.
    pub open spec fn count(&self) -> nat {
        self.max_item_count as nat
    }

    /// Inserts a pair after every retained pair at most as far, and drops
    /// the farthest one if there are more than `max_item_count`.
    fn insert_index(&mut self, index: usize, distance: Item::Distance)
        requires
            old(self).max_item_count > 0,
        ensures
            final(self).max_item_count == old(self).max_item_count,
            exists|pos: int|
                #[trigger] insert_spot(old(self).distance_x_index@, pos, val(distance))
                    && final(self).distance_x_index@ == capped(
                    old(self).distance_x_index@.insert(pos, (distance, index)),
                    old(self).max_item_count as int,
                ),
    {
        let ghost l = self.distance_x_index@;
        let mut pos = self.distance_x_index.len();
        while pos > 0 && distance.is_less(&self.distance_x_index[pos - 1].0)
            invariant
                pos <= l.len(),
                self.distance_x_index@ == l,
                forall|a: int| pos <= a < l.len() ==> val(distance) < val((#[trigger] l[a]).0),
            decreases pos,
        {
            pos = pos - 1;
        }
        proof {
            assert(pos > 0 ==> val(l[pos - 1].0) <= val(distance));
        }
        self.distance_x_index.insert(pos, (distance, index));
        if self.distance_x_index.len() > self.max_item_count {
            self.distance_x_index.truncate(self.max_item_count);
        }
        proof {
            assert(insert_spot(l, pos as int, val(distance)));
            let l2 = l.insert(pos as int, (distance, index));
            if l2.len() > self.max_item_count {
                assert(self.distance_x_index@ =~= capped(l2, self.max_item_count as int));
            } else {
                assert(self.distance_x_index@ =~= capped(l2, self.max_item_count as int));
            }
        }
    }
}

/// `pos` is where a pair at distance `d` goes in the sorted list `l`: after
/// every pair at most as far, before every farther one.
pub open spec fn insert_spot<D: DistanceValue>(l: Seq<(D, usize)>, pos: int, d: int) -> bool {
    &&& 0 <= pos <= l.len()
    &&& pos > 0 ==> val(l[pos - 1].0) <= d
    &&& forall|a: int| pos <= a < l.len() ==> d < val((#[trigger] l[a]).0)
}

/// The first `k` entries of `l`.
pub open spec fn capped<A>(l: Seq<A>, k: int) -> Seq<A> {
    if l.len() > k {
        l.subrange(0, k)
    } else {
        l
    }
}


/// Inserting at `insert_spot` keeps a sorted list sorted.
proof fn lemma_insert_sorted<D: DistanceValue>(l: Seq<(D, usize)>, pos: int, x: (D, usize))
    requires
        insert_spot(l, pos, val(x.0)),
        forall|a: int, b: int| 0 <= a <= b < l.len() ==> #[trigger] val(l[a].0) <= #[trigger] val(l[b].0),
    ensures
        forall|a: int, b: int|
            0 <= a <= b < l.len() + 1 ==> #[trigger] val(l.insert(pos, x)[a].0) <= #[trigger] val(l.insert(
                pos,
                x,
            )[b].0),
{
    let l2 = l.insert(pos, x);
    assert forall|a: int, b: int| 0 <= a <= b < l.len() + 1 implies #[trigger] val(l2[a].0)
        <= #[trigger] val(l2[b].0) by {
        if a < pos && b < pos {
            assert(val(l[a].0) <= val(l[b].0));
        } else if a < pos && b == pos {
            assert(val(l[a].0) <= val(l[pos - 1].0));
        } else if a < pos {
            assert(val(l[a].0) <= val(l[b - 1].0));
        } else if a == pos && b > pos {
            assert(val(x.0) < val(l[b - 1].0));
        } else if a > pos {
            assert(val(l[a - 1].0) <= val(l[b - 1].0));
        }
    }
}

/// `l` is the sorted list of the `k` nearest candidates of `seen` (all of
/// them while there are fewer than `k`), each index once.
pub open spec fn knn_ok<D: DistanceValue>(l: Seq<(D, usize)>, k: int, seen: Map<int, int>) -> bool {
    &&& seen.dom().finite()
    &&& l.len() == min_nat(k as nat, seen.dom().len())
    &&& forall|a: int, b: int| 0 <= a <= b < l.len() ==> #[trigger] val(l[a].0) <= #[trigger] val(l[b].0)
    &&& forall|a: int|
        0 <= a < l.len() ==> seen.contains_key(#[trigger] l[a].1 as int) && seen[l[a].1 as int] == val(l[a].0)
    &&& forall|a: int, b: int| 0 <= a < b < l.len() ==> #[trigger] l[a].1 != #[trigger] l[b].1
    &&& forall|i: int|
        #[trigger] seen.contains_key(i) && !lists_index(l, i) ==> l.len() == k && (k == 0 || val(l[l.len()
            - 1].0) <= seen[i])
}

/// Where a pair at distance `d` goes in the sorted list `l`.
pub open spec fn spot<D: DistanceValue>(l: Seq<(D, usize)>, d: int) -> int {
    choose|pos: int| insert_spot(l, pos, d)
}

/// A list has one place at most for a pair at a given distance.
proof fn lemma_spot_unique<D: DistanceValue>(l: Seq<(D, usize)>, p1: int, p2: int, d: int)
    requires
        insert_spot(l, p1, d),
        insert_spot(l, p2, d),
    ensures
        p1 == p2,
{
    if p1 < p2 {
        assert(d < val(l[p2 - 1].0));
    } else if p2 < p1 {
        assert(d < val(l[p1 - 1].0));
    }
}

/// The k-nearest list after `x` is offered to `l`.
pub open spec fn knn_next<D: DistanceValue>(l: Seq<(D, usize)>, k: int, x: (D, usize)) -> Seq<(D, usize)> {
    if k == 0 {
        l
    } else if l.len() < k || val(x.0) < val(l[l.len() - 1].0) {
        capped(l.insert(spot(l, val(x.0)), x), k)
    } else {
        l
    }
}

/// The bound of a k-nearest list: its last distance once it is full.
pub open spec fn knn_bound<D: DistanceValue>(l: Seq<(D, usize)>, k: int) -> int {
    if l.len() < k || l.len() == 0 {
        top::<D>()
    } else {
        val(l[l.len() - 1].0)
    }
}

proof fn lemma_knn_skip<D: DistanceValue>(l: Seq<(D, usize)>, k: int, seen: Map<int, int>, ci: int, d: int)
    requires
        knn_ok(l, k, seen),
        !seen.contains_key(ci),
        l.len() == k,
        k > 0,
        val(l[k - 1].0) <= d,
    ensures
        knn_ok(l, k, seen.insert(ci, d)),
{
    let s2 = seen.insert(ci, d);
    assert(s2.dom() =~= seen.dom().insert(ci));
    assert forall|i: int| #[trigger] s2.contains_key(i) && !lists_index(l, i) implies l.len() == k && (k == 0
        || val(l[l.len() - 1].0) <= s2[i]) by {
        if i != ci {
            assert(seen.contains_key(i));
        }
    }
    assert forall|a: int| 0 <= a < l.len() implies s2.contains_key(#[trigger] l[a].1 as int) && s2[l[a].1 as int]
        == val(l[a].0) by {
        assert(seen.contains_key(l[a].1 as int));
    }
}

proof fn lemma_knn_zero<D: DistanceValue>(l: Seq<(D, usize)>, seen: Map<int, int>, ci: int, d: int)
    requires
        knn_ok(l, 0, seen),
        !seen.contains_key(ci),
    ensures
        knn_ok(l, 0, seen.insert(ci, d)),
{
    let s2 = seen.insert(ci, d);
    assert(s2.dom() =~= seen.dom().insert(ci));
}

/// The entries of `l` with `x` inserted at `pos`, cut to `k`: each comes from
/// `l` or is `x`, and the indexes stay distinct.
proof fn lemma_knn_entries<D: DistanceValue>(
    l: Seq<(D, usize)>,
    k: int,
    seen: Map<int, int>,
    pos: int,
    x: (D, usize),
    nl: Seq<(D, usize)>,
)
    requires
        knn_ok(l, k, seen),
        !seen.contains_key(x.1 as int),
        0 <= pos <= l.len(),
        pos < nl.len() <= l.len() + 1,
        forall|a: int| 0 <= a < nl.len() ==> #[trigger] nl[a] == l.insert(pos, x)[a],
    ensures
        forall|a: int|
            0 <= a < nl.len() ==> seen.insert(x.1 as int, val(x.0)).contains_key(#[trigger] nl[a].1 as int)
                && seen.insert(x.1 as int, val(x.0))[nl[a].1 as int] == val(nl[a].0),
        forall|a: int, b: int| 0 <= a < b < nl.len() ==> #[trigger] nl[a].1 != #[trigger] nl[b].1,
        nl[pos] == x,
{
    let s2 = seen.insert(x.1 as int, val(x.0));
    assert forall|a: int| 0 <= a < l.len() implies (#[trigger] l[a]).1 != x.1 by {
        assert(seen.contains_key(l[a].1 as int));
    }
    assert forall|a: int| 0 <= a < nl.len() implies s2.contains_key(#[trigger] nl[a].1 as int) && s2[nl[a].1 as int]
        == val(nl[a].0) by {
        if a < pos {
            assert(nl[a] == l[a]);
        } else if a > pos {
            assert(nl[a] == l[a - 1]);
        }
    }
    assert forall|a: int, b: int| 0 <= a < b < nl.len() implies #[trigger] nl[a].1 != #[trigger] nl[b].1 by {
        if a != pos && b != pos {
            let a0 = if a < pos {
                a
            } else {
                a - 1
            };
            let b0 = if b < pos {
                b
            } else {
                b - 1
            };
            assert(nl[a] == l[a0]);
            assert(nl[b] == l[b0]);
        } else if a == pos {
            assert(nl[b] == l[b - 1]);
        } else {
            assert(nl[a] == l[a]);
        }
    }
}

proof fn lemma_knn_grow<D: DistanceValue>(
    l: Seq<(D, usize)>,
    k: int,
    seen: Map<int, int>,
    pos: int,
    x: (D, usize),
)
    requires
        knn_ok(l, k, seen),
        !seen.contains_key(x.1 as int),
        l.len() < k,
        insert_spot(l, pos, val(x.0)),
    ensures
        knn_ok(l.insert(pos, x), k, seen.insert(x.1 as int, val(x.0))),
        knn_bound(l.insert(pos, x), k) <= knn_bound(l, k),
{
    let s2 = seen.insert(x.1 as int, val(x.0));
    let nl = l.insert(pos, x);
    assert(s2.dom() =~= seen.dom().insert(x.1 as int));
    lemma_insert_sorted(l, pos, x);
    lemma_knn_entries(l, k, seen, pos, x, nl);
    assert forall|i: int| #[trigger] s2.contains_key(i) && !lists_index(nl, i) implies nl.len() == k && (k == 0
        || val(nl[nl.len() - 1].0) <= s2[i]) by {
        if i == x.1 as int {
            assert(nl[pos].1 as int == i);
        } else {
            assert(seen.contains_key(i));
            if lists_index(l, i) {
                let a = choose|a: int| 0 <= a < l.len() && #[trigger] l[a].1 as int == i;
                if a < pos {
                    assert(nl[a].1 as int == i);
                } else {
                    assert(nl[a + 1].1 as int == i);
                }
            }
        }
    }
    lemma_in_range(nl[nl.len() - 1].0);
}

proof fn lemma_knn_replace<D: DistanceValue>(
    l: Seq<(D, usize)>,
    k: int,
    seen: Map<int, int>,
    pos: int,
    x: (D, usize),
)
    requires
        knn_ok(l, k, seen),
        !seen.contains_key(x.1 as int),
        l.len() == k,
        k > 0,
        val(x.0) < val(l[k - 1].0),
        insert_spot(l, pos, val(x.0)),
    ensures
        knn_ok(l.insert(pos, x).subrange(0, k), k, seen.insert(x.1 as int, val(x.0))),
        knn_bound(l.insert(pos, x).subrange(0, k), k) <= knn_bound(l, k),
{
    let s2 = seen.insert(x.1 as int, val(x.0));
    let l2 = l.insert(pos, x);
    let nl = l2.subrange(0, k);
    assert(s2.dom() =~= seen.dom().insert(x.1 as int));
    assert(pos < k);
    lemma_insert_sorted(l, pos, x);
    lemma_knn_entries(l, k, seen, pos, x, nl);
    assert(l2[k] == l[k - 1]);
    assert(val(nl[k - 1].0) <= val(l2[k].0));
    assert forall|i: int| #[trigger] s2.contains_key(i) && !lists_index(nl, i) implies nl.len() == k && (k == 0
        || val(nl[nl.len() - 1].0) <= s2[i]) by {
        if i == x.1 as int {
            assert(nl[pos].1 as int == i);
        } else {
            assert(seen.contains_key(i));
            if lists_index(l, i) {
                let a = choose|a: int| 0 <= a < l.len() && #[trigger] l[a].1 as int == i;
                if a < pos {
                    assert(nl[a].1 as int == i);
                } else if a < k - 1 {
                    assert(nl[a + 1].1 as int == i);
                }
            }
        }
    }
}

impl<Item: MetricSpace<Impl> + Clone, Impl> BestCandidate<Item, Impl> for KNearest<Item, Impl> {
    type Output = Vec<usize>;

    open spec fn bound(&self) -> int {
        knn_bound(self.distance_x_index@, self.max_item_count as int)
    }

    open spec fn step(&self, distance: Item::Distance, candidate_index: usize, next: Self) -> bool {
        &&& next.max_item_count == self.max_item_count
        &&& next.distance_x_index@ == knn_next(
            self.distance_x_index@,
            self.max_item_count as int,
            (distance, candidate_index),
        )
    }

    open spec fn settles(&self, out: Vec<usize>) -> bool {
        out@.len() <= self.count()
    }

    open spec fn produces(&self, out: Vec<usize>) -> bool {
        &&& out@.len() == self.distance_x_index@.len()
        &&& forall|b: int| 0 <= b < out@.len() ==> #[trigger] out@[b] == self.distance_x_index@[b].1
    }

    open spec fn tracks(&self, start: Self, seen: Map<int, int>) -> bool {
        &&& self.max_item_count == start.max_item_count
        &&& knn_ok(self.distance_x_index@, self.max_item_count as int, seen)
    }

    open spec fn answers(&self, all: Map<int, int>, out: Vec<usize>) -> bool {
        &&& out@.len() == min_nat(self.count(), all.dom().len())
        &&& out@.no_duplicates()
        &&& forall|a: int| 0 <= a < out@.len() ==> all.contains_key(#[trigger] out@[a] as int)
        &&& forall|a: int, i: int|
            0 <= a < out@.len() && #[trigger] all.contains_key(i) && !holds_index(out@, i) ==> all[#[trigger] out@[a] as int] <= all[i]
    }

    fn consider(
        &mut self,
        item: &Item,
        distance: Item::Distance,
        candidate_index: usize,
        user_data: &Item::UserData,
    ) {
        let ghost old_self = *self;
        let ghost l = self.distance_x_index@;
        let ghost ci = candidate_index as int;
        let ghost d = val(distance);
        if self.max_item_count == 0 {
            proof {
                assert forall|start: Self, seen: Map<int, int>|
                    #[trigger] old_self.tracks(start, seen) && !seen.contains_key(ci) implies self.tracks(
                    start,
                    seen.insert(ci, d),
                ) && self.bound() <= old_self.bound() by {
                    lemma_knn_zero(l, seen, ci, d);
                }
            }
            return;
        }
        let len = self.distance_x_index.len();
        if len < self.max_item_count || distance.is_less(&self.distance_x_index[len - 1].0) {
            self.insert_index(candidate_index, distance);
            proof {
                let k = self.max_item_count as int;
                let x = (distance, candidate_index);
                let pos = choose|pos: int|
                    #[trigger] insert_spot(l, pos, d) && self.distance_x_index@ == capped(l.insert(pos, x), k);
                lemma_spot_unique(l, pos, spot(l, d), d);
                assert forall|start: Self, seen: Map<int, int>|
                    #[trigger] old_self.tracks(start, seen) && !seen.contains_key(ci) implies self.tracks(
                    start,
                    seen.insert(ci, d),
                ) && self.bound() <= old_self.bound() by {
                    if l.len() < k {
                        lemma_knn_grow(l, k, seen, pos, x);
                    } else {
                        lemma_knn_replace(l, k, seen, pos, x);
                    }
                }
            }
        } else {
            proof {
                let k = self.max_item_count as int;
                assert forall|start: Self, seen: Map<int, int>|
                    #[trigger] old_self.tracks(start, seen) && !seen.contains_key(ci) implies self.tracks(
                    start,
                    seen.insert(ci, d),
                ) && self.bound() <= old_self.bound() by {
                    lemma_knn_skip(l, k, seen, ci, d);
                }
            }
        }
    }

    fn distance(&self) -> (r: Item::Distance) {
        let len = self.distance_x_index.len();
        if len < self.max_item_count || len == 0 {
            Item::Distance::max_value()
        } else {
            self.distance_x_index[len - 1].0
        }
    }

    fn result(self, user_data: &Item::UserData) -> (r: Vec<usize>) {
        let mut out: Vec<usize> = Vec::new();
        let mut a: usize = 0;
        while a < self.distance_x_index.len()
            invariant
                a <= self.distance_x_index@.len(),
                out@.len() == a,
                forall|b: int| 0 <= b < a ==> #[trigger] out@[b] == self.distance_x_index@[b].1,
            decreases self.distance_x_index@.len() - a,
        {
            out.push(self.distance_x_index[a].1);
            a = a + 1;
        }
        proof {
            let l = self.distance_x_index@;
            let k = self.max_item_count as int;
            assert(self.produces(out));
            assert forall|start: Self, seen: Map<int, int>, all: Map<int, int>|
                #![trigger self.tracks(start, seen), covers(seen, all, self.bound(), top::<Item::Distance>())]
                self.tracks(start, seen) && covers(
                    seen,
                    all,
                    self.bound(),
                    top::<Item::Distance>(),
                ) implies start.answers(all, out) by {
                lemma_knn_answer(l, k, seen, all, out@);
            }
        }
        out
    }
}

/// What a k-nearest list says of all distances, once every candidate left
/// out of `seen` is known to be farther than its bound.
proof fn lemma_knn_answer<D: DistanceValue>(
    l: Seq<(D, usize)>,
    k: int,
    seen: Map<int, int>,
    all: Map<int, int>,
    out: Seq<usize>,
)
    requires
        k >= 0,
        knn_ok(l, k, seen),
        covers(seen, all, knn_bound(l, k), top::<D>()),
        out.len() == l.len(),
        forall|b: int| 0 <= b < l.len() ==> #[trigger] out[b] == l[b].1,
    ensures
        out.len() == min_nat(k as nat, all.dom().len()),
        out.no_duplicates(),
        forall|a: int| 0 <= a < out.len() ==> all.contains_key(#[trigger] out[a] as int),
        forall|a: int, i: int|
            0 <= a < out.len() && #[trigger] all.contains_key(i) && !holds_index(out, i) ==> all[#[trigger] out[a] as int] <= all[i],
{
    assert(seen.dom().subset_of(all.dom()));
    vstd::set_lib::lemma_len_subset(seen.dom(), all.dom());
    assert forall|i: int| #[trigger] lists_index(l, i) implies holds_index(out, i) by {
        let a = choose|a: int| 0 <= a < l.len() && #[trigger] l[a].1 as int == i;
        assert(out[a] as int == i);
    }
    assert forall|a: int| 0 <= a < out.len() implies all.contains_key(#[trigger] out[a] as int) by {
        assert(seen.contains_key(l[a].1 as int));
    }
    if l.len() < k || l.len() == 0 {
        if k > 0 {
            assert(seen.dom() =~= all.dom()) by {
                assert(forall|i: int| #[trigger] all.contains_key(i) ==> seen.contains_key(i));
            }
        }
        assert forall|a: int, i: int|
            0 <= a < out.len() && #[trigger] all.contains_key(i) && !holds_index(out, i) implies all[#[trigger] out[a] as int]
            <= all[i] by {
            assert(seen.contains_key(i));
            assert(!lists_index(l, i));
        }
    } else {
        assert forall|a: int, i: int|
            0 <= a < out.len() && #[trigger] all.contains_key(i) && !holds_index(out, i) implies all[#[trigger] out[a] as int]
            <= all[i] by {
            assert(seen.contains_key(l[a].1 as int));
            assert(val(l[a].0) <= val(l[l.len() - 1].0));
            if seen.contains_key(i) {
                assert(!lists_index(l, i));
            }
        }
    }
    assert forall|a: int, b: int| 0 <= a < out.len() && 0 <= b < out.len() && a != b implies out[a] != out[b] by {
        if a < b {
            assert(l[a].1 != l[b].1);
        } else {
            assert(l[b].1 != l[a].1);
        }
    }
}


/// Keeps every item nearer than a fixed distance, as original indexes in the
/// order the search met them.
pub struct WithinRadius<Item: MetricSpace<Impl>, Impl> {
    /// Items must be strictly nearer than this.
    pub max_distance: Item::Distance,
    /// The original indexes found so far.
    pub found: Vec<usize>,
}

impl<Item: MetricSpace<Impl> + Clone, Impl> WithinRadius<Item, Impl> {
    /// A collector for the items strictly nearer than `max_distance`.
    pub fn new(max_distance: Item::Distance) -> (r: Self)
        ensures
            r.radius() == val(max_distance),
            r.tracks(r, Map::empty()),
    {
        WithinRadius { max_distance, found: Vec::new() }
    }

    /// The exclusive upper bound on the distances kept.
    pub open spec fn radius(&self) -> int {
        val(self.max_distance)
    }
}

impl<Item: MetricSpace<Impl> + Clone, Impl> BestCandidate<Item, Impl> for WithinRadius<Item, Impl> {
    type Output = Vec<usize>;

    open spec fn bound(&self) -> int {
        val(self.max_distance)
    }

    open spec fn step(&self, distance: Item::Distance, candidate_index: usize, next: Self) -> bool {
        &&& next.max_distance == self.max_distance
        &&& next.found@ == if val(distance) < val(self.max_distance) {
            self.found@.push(candidate_index)
        } else {
            self.found@
        }
    }

    open spec fn produces(&self, out: Vec<usize>) -> bool {
        out@ == self.found@
    }

    open spec fn settles(&self, out: Vec<usize>) -> bool {
        out@.no_duplicates()
    }

    open spec fn tracks(&self, start: Self, seen: Map<int, int>) -> bool {
        let f = self.found@;
        let r = val(self.max_distance);
        &&& r == val(start.max_distance)
        &&& seen.dom().finite()
        &&& f.no_duplicates()
        &&& forall|a: int| 0 <= a < f.len() ==> seen.contains_key(#[trigger] f[a] as int) && seen[f[a] as int] < r
        &&& forall|i: int| #[trigger] seen.contains_key(i) && seen[i] < r ==> holds_index(f, i)
    }

    open spec fn answers(&self, all: Map<int, int>, out: Vec<usize>) -> bool {
        &&& out@.no_duplicates()
        &&& forall|a: int|
            0 <= a < out@.len() ==> all.contains_key(#[trigger] out@[a] as int) && all[out@[a] as int] < self.radius()
        &&& forall|i: int| #[trigger] all.contains_key(i) && all[i] < self.radius() ==> holds_index(out@, i)
    }

    fn consider(
        &mut self,
        item: &Item,
        distance: Item::Distance,
        candidate_index: usize,
        user_data: &Item::UserData,
    ) {
        let ghost old_self = *self;
        let ghost f = self.found@;
        let ghost ci = candidate_index as int;
        let ghost d = val(distance);
        if distance.is_less(&self.max_distance) {
            self.found.push(candidate_index);
        }
        proof {
            assert forall|start: Self, seen: Map<int, int>|
                #[trigger] old_self.tracks(start, seen) && !seen.contains_key(ci) implies self.tracks(
                start,
                seen.insert(ci, d),
            ) && self.bound() <= old_self.bound() by {
                let s2 = seen.insert(ci, d);
                let nf = self.found@;
                assert forall|a: int| 0 <= a < f.len() implies f[a] as int != ci by {
                    assert(seen.contains_key(f[a] as int));
                }
                assert forall|a: int| 0 <= a < nf.len() implies s2.contains_key(#[trigger] nf[a] as int) && s2[nf[a]
                    as int] < val(self.max_distance) by {
                    if a < f.len() {
                        assert(nf[a] == f[a]);
                    }
                }
                assert forall|i: int| #[trigger] s2.contains_key(i) && s2[i] < val(self.max_distance) implies holds_index(
                    nf,
                    i,
                ) by {
                    if i == ci {
                        assert(nf[nf.len() - 1] as int == ci);
                    } else {
                        assert(seen.contains_key(i));
                        let a = choose|a: int| 0 <= a < f.len() && f[a] as int == i;
                        assert(nf[a] == f[a]);
                    }
                }
                assert forall|a: int, b: int| 0 <= a < nf.len() && 0 <= b < nf.len() && a != b implies nf[a]
                    != nf[b] by {
                    if a < f.len() && b < f.len() {
                        assert(nf[a] == f[a] && nf[b] == f[b]);
                    } else if a < f.len() {
                        assert(nf[a] == f[a]);
                    } else if b < f.len() {
                        assert(nf[b] == f[b]);
                    }
                }
            }
        }
    }

    fn distance(&self) -> (r: Item::Distance) {
        self.max_distance
    }

    fn result(self, user_data: &Item::UserData) -> (r: Vec<usize>) {
        proof {
            assert forall|start: Self, seen: Map<int, int>, all: Map<int, int>|
                #![trigger self.tracks(start, seen), covers(seen, all, self.bound(), top::<Item::Distance>())]
                self.tracks(start, seen) && covers(
                    seen,
                    all,
                    self.bound(),
                    top::<Item::Distance>(),
                ) implies start.answers(all, self.found) by {
                assert forall|i: int| #[trigger] all.contains_key(i) && all[i] < start.radius() implies holds_index(
                    self.found@,
                    i,
                ) by {
                    assert(seen.contains_key(i));
                }
            }
        }
        self.found
    }
}

} // verus!
