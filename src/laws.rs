//! Properties of search results that hold for every input, stated over the
//! answers that the collectors promise.
use vstd::prelude::*;

use crate::candidate::{holds_index, min_nat, BestCandidate, KNearest, WithinRadius};
use crate::metric::{distances_from, triangle_ok, triangle_on, MetricSpace};
use crate::distance::val;
use crate::tree::{dist, is_nearest, Tree};

verus! {

/// The distance is a metric on `pts`: symmetric, and obeying the triangle
/// inequality between any three of them.
pub open spec fn is_metric_on<Item: MetricSpace<Impl>, Impl>(pts: Seq<Item>, user_data: Item::UserData) -> bool {
    &&& forall|a: int, b: int|
        0 <= a < pts.len() && 0 <= b < pts.len() ==> #[trigger] dist::<Item, Impl>(pts[a], pts[b], user_data)
            == dist::<Item, Impl>(pts[b], pts[a], user_data)
    &&& forall|a: int, b: int, c: int|
        0 <= a < pts.len() && 0 <= b < pts.len() && 0 <= c < pts.len() ==> #[trigger] dist::<Item, Impl>(
            pts[a],
            pts[c],
            user_data,
        ) <= #[trigger] dist::<Item, Impl>(pts[a], pts[b], user_data) + #[trigger] dist::<Item, Impl>(
            pts[b],
            pts[c],
            user_data,
        )
}

/// A metric on the items and the needle together is all that a search
/// needs of the distance to be exact.
pub proof fn lemma_metric_is_enough<Item: MetricSpace<Impl>, Impl>(
    needle: Item,
    pts: Seq<Item>,
    user_data: Item::UserData,
)
    requires
        is_metric_on::<Item, Impl>(pts.push(needle), user_data),
    ensures
        triangle_on::<Item, Impl>(needle, pts, user_data),
{
    let all = pts.push(needle);
    let q = pts.len() as int;
    assert forall|a: int, b: int| 0 <= a < pts.len() && 0 <= b < pts.len() implies #[trigger] triangle_ok::<
        Item,
        Impl,
    >(needle, pts[a], pts[b], user_data) by {
        assert(all[a] == pts[a] && all[b] == pts[b] && all[q] == needle);
        assert(dist::<Item, Impl>(all[a], all[q], user_data) == dist::<Item, Impl>(all[q], all[a], user_data));
        assert(dist::<Item, Impl>(all[b], all[a], user_data) == dist::<Item, Impl>(all[a], all[b], user_data));
        assert(dist::<Item, Impl>(all[a], all[b], user_data) <= dist::<Item, Impl>(all[a], all[q], user_data)
            + dist::<Item, Impl>(all[q], all[b], user_data));
        assert(dist::<Item, Impl>(all[q], all[a], user_data) <= dist::<Item, Impl>(all[q], all[b], user_data)
            + dist::<Item, Impl>(all[b], all[a], user_data));
    }
}

/// Over a single item, the nearest is that item at its true distance.
pub proof fn law_single_item_nearest<Item: MetricSpace<Impl>, Impl>(
    needle: Item,
    pts: Seq<Item>,
    user_data: Item::UserData,
    index: int,
    distance: int,
)
    requires
        pts.len() == 1,
        is_nearest(distances_from::<Item, Impl>(needle, pts, user_data), index, distance),
    ensures
        index == 0,
        distance == dist::<Item, Impl>(needle, pts[0], user_data),
{
}

/// Over a single item, a k-nearest answer with `k >= 1` is that item alone.
pub proof fn law_single_item_k_nearest<Item: MetricSpace<Impl> + Clone, Impl>(
    collector: KNearest<Item, Impl>,
    needle: Item,
    pts: Seq<Item>,
    user_data: Item::UserData,
    out: Vec<usize>,
)
    requires
        pts.len() == 1,
        collector.count() >= 1,
        collector.answers(distances_from::<Item, Impl>(needle, pts, user_data), out),
    ensures
        out@ == seq![0usize],
{
    let all = distances_from::<Item, Impl>(needle, pts, user_data);
    assert(all.dom() =~= set![0int]);
    assert(all.dom().len() == 1);
    assert(out@.len() == 1);
    assert(all.contains_key(out@[0] as int));
    assert(out@ =~= seq![0usize]);
}

/// With `k == 0` a k-nearest answer is empty, whatever the items.
pub proof fn law_k_zero_is_empty<Item: MetricSpace<Impl> + Clone, Impl>(
    collector: KNearest<Item, Impl>,
    all: Map<int, int>,
    out: Vec<usize>,
)
    requires
        collector.count() == 0,
        collector.answers(all, out),
    ensures
        out@.len() == 0,
{
}

/// A k-nearest answer holds `min(k, n)` distinct indexes, and none left out
/// is nearer than one kept: it is a set of `k` smallest distances.
pub proof fn law_k_nearest_smallest<Item: MetricSpace<Impl> + Clone, Impl>(
    collector: KNearest<Item, Impl>,
    all: Map<int, int>,
    out: Vec<usize>,
    kept: int,
    other: int,
)
    requires
        collector.answers(all, out),
        holds_index(out@, kept),
        all.contains_key(other),
        !holds_index(out@, other),
    ensures
        all.contains_key(kept),
        all[kept] <= all[other],
        out@.len() == min_nat(collector.count(), all.dom().len()),
        out@.to_set().len() == out@.len(),
{
    let a = choose|a: int| 0 <= a < out@.len() && out@[a] as int == kept;
    assert(all.contains_key(out@[a] as int));
    out@.unique_seq_to_set();
}

/// A radius answer is exactly the set of indexes strictly nearer than the
/// radius.
pub proof fn law_radius_exact<Item: MetricSpace<Impl> + Clone, Impl>(
    collector: WithinRadius<Item, Impl>,
    all: Map<int, int>,
    out: Vec<usize>,
    i: int,
)
    requires
        collector.answers(all, out),
        all.contains_key(i),
    ensures
        holds_index(out@, i) <==> all[i] < collector.radius(),
{
    if holds_index(out@, i) {
        let a = choose|a: int| 0 <= a < out@.len() && out@[a] as int == i;
        assert(all.contains_key(out@[a] as int));
    }
}


/// Two nearest answers over the same distances agree on the distance.
pub proof fn law_nearest_distance_is_determined(all: Map<int, int>, x1: int, d1: int, x2: int, d2: int)
    requires
        is_nearest(all, x1, d1),
        is_nearest(all, x2, d2),
    ensures
        d1 == d2,
        all[x1] == all[x2],
{
}

/// Two radius answers with the same radius over the same distances hold
/// the same indexes.
pub proof fn law_radius_is_determined<Item: MetricSpace<Impl> + Clone, Impl>(
    c1: WithinRadius<Item, Impl>,
    c2: WithinRadius<Item, Impl>,
    all: Map<int, int>,
    out1: Vec<usize>,
    out2: Vec<usize>,
    i: int,
)
    requires
        c1.radius() == c2.radius(),
        c1.answers(all, out1),
        c2.answers(all, out2),
    ensures
        holds_index(out1@, i) <==> holds_index(out2@, i),
{
    if holds_index(out1@, i) {
        let a = choose|a: int| 0 <= a < out1@.len() && out1@[a] as int == i;
        assert(all.contains_key(out1@[a] as int));
    }
    if holds_index(out2@, i) {
        let a = choose|a: int| 0 <= a < out2@.len() && out2@[a] as int == i;
        assert(all.contains_key(out2@[a] as int));
    }
}

/// Two k-nearest answers for the same `k` over the same distances have the
/// same size and differ only between items at equal distances.
pub proof fn law_k_nearest_differs_only_in_ties<Item: MetricSpace<Impl> + Clone, Impl>(
    c1: KNearest<Item, Impl>,
    c2: KNearest<Item, Impl>,
    all: Map<int, int>,
    out1: Vec<usize>,
    out2: Vec<usize>,
    i: int,
    j: int,
)
    requires
        c1.count() == c2.count(),
        c1.answers(all, out1),
        c2.answers(all, out2),
        holds_index(out1@, i) && !holds_index(out2@, i),
        holds_index(out2@, j) && !holds_index(out1@, j),
    ensures
        out1@.len() == out2@.len(),
        all[i] == all[j],
{
    let a = choose|a: int| 0 <= a < out1@.len() && out1@[a] as int == i;
    let b = choose|b: int| 0 <= b < out2@.len() && out2@[b] as int == j;
    assert(all.contains_key(out1@[a] as int));
    assert(all.contains_key(out2@[b] as int));
}


/// Nearest-one searches are repeatable: two searches of one tree for one
/// needle under one context return the same index and distance.
pub proof fn law_nearest_is_repeatable<Item: MetricSpace<Impl> + Clone, Impl, Ownership>(
    tree: Tree<Item, Impl, Ownership>,
    needle: Item,
    user_data: Item::UserData,
    r1: (usize, Item::Distance),
    r2: (usize, Item::Distance),
)
    requires
        r1 == tree.nearest_of(needle, user_data),
        r2 == tree.nearest_of(needle, user_data),
    ensures
        r1 == r2,
{
}

/// Searches are exact against a brute-force scan of the input items: where
/// the stored items equal the inputs (as clones of `Copy` types do) and the
/// distance is a metric on them and the needle, every search of a tree built
/// under `user_data` is exact, over the distances to the inputs themselves.
pub proof fn law_metric_inputs_make_search_exact<Item: MetricSpace<Impl> + Clone, Impl, Ownership>(
    tree: Tree<Item, Impl, Ownership>,
    items: Seq<Item>,
    needle: Item,
    user_data: Item::UserData,
)
    requires
        tree.points() == items,
        tree.built_for(user_data),
        is_metric_on::<Item, Impl>(items.push(needle), user_data),
    ensures
        tree.exact_for(needle, user_data),
        distances_from::<Item, Impl>(needle, tree.points(), user_data) == distances_from::<Item, Impl>(
            needle,
            items,
            user_data,
        ),
{
    lemma_metric_is_enough::<Item, Impl>(needle, items, user_data);
}
} // verus!
