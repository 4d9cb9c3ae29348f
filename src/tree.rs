//! The tree: an arena of nodes built by median split around vantage points,
//! and the branch-and-bound search over it.
use vstd::prelude::*;
use vstd::set_lib::{lemma_int_range, set_int_range};

use crate::candidate::{covers, steps_uniquely, BestCandidate, ReturnByIndex};
use crate::distance::{lemma_in_range, top, val, DistanceValue};
use crate::metric::{distances_from, triangle_ok, triangle_on, MetricSpace};

verus! {

/// Link value of a child that does not exist.
pub const NO_NODE: usize = usize::MAX;

/// Context data owned by a tree.
pub struct Owned<T>(T);

/// An index paired with its distance from the current vantage point.
struct Tmp<Item: MetricSpace<Impl>, Impl> {
    distance: Item::Distance,
    idx: usize,
}

/// Distance between two items under the given context.
pub open spec fn dist<Item: MetricSpace<Impl>, Impl>(a: Item, b: Item, user_data: Item::UserData) -> int {
    val(a.spec_distance(&b, &user_data))
}

/// Indexes of a list of pairs.
spec fn tmp_ids<Item: MetricSpace<Impl>, Impl>(v: Seq<Tmp<Item, Impl>>) -> Seq<usize> {
    v.map_values(|t: Tmp<Item, Impl>| t.idx)
}

/// `v` is ordered by ascending distance.
spec fn tmp_sorted<Item: MetricSpace<Impl>, Impl>(v: Seq<Tmp<Item, Impl>>) -> bool {
    forall|a: int, b: int| 0 <= a <= b < v.len() ==> #[trigger] val(v[a].distance) <= #[trigger] val(v[b].distance)
}

/// Pairs at equal distances in `v` stand in increasing `rank` of their index.
spec fn tmp_stable<Item: MetricSpace<Impl>, Impl>(v: Seq<Tmp<Item, Impl>>, rank: spec_fn(usize) -> int) -> bool {
    forall|p: int, q: int|
        0 <= p < q < v.len() && val(#[trigger] v[p].distance) == val(#[trigger] v[q].distance) ==> rank(v[p].idx)
            < rank(v[q].idx)
}

/// Where `x` stands in `s`.
spec fn position_in(s: Seq<usize>, x: usize) -> int {
    choose|k: int| 0 <= k < s.len() && s[k] == x
}

/// Merges two lists sorted by distance into one; on equal distances the
/// pair from `a` comes first.
fn merge_by_distance<Item: MetricSpace<Impl>, Impl>(
    a: Vec<Tmp<Item, Impl>>,
    b: Vec<Tmp<Item, Impl>>,
    Ghost(rank): Ghost<spec_fn(usize) -> int>,
) -> (r: Vec<Tmp<Item, Impl>>)
    requires
        tmp_sorted(a@),
        tmp_sorted(b@),
        tmp_stable(a@, rank),
        tmp_stable(b@, rank),
        forall|p: int, q: int| 0 <= p < a@.len() && 0 <= q < b@.len() ==> rank(#[trigger] a@[p].idx) < rank(#[trigger] b@[q].idx),
        tmp_ids(a@).no_duplicates(),
        tmp_ids(b@).no_duplicates(),
        forall|x: usize| !(tmp_ids(a@).contains(x) && tmp_ids(b@).contains(x)),
    ensures
        r@.len() == a@.len() + b@.len(),
        tmp_sorted(r@),
        tmp_stable(r@, rank),
        tmp_ids(r@).no_duplicates(),
        tmp_ids(r@).to_set() == tmp_ids(a@).to_set().union(tmp_ids(b@).to_set()),
        forall|k: int| 0 <= k < r@.len() ==> a@.contains(#[trigger] r@[k]) || b@.contains(r@[k]),
{
    let ghost ia = tmp_ids(a@);
    let ghost ib = tmp_ids(b@);
    let mut r: Vec<Tmp<Item, Impl>> = Vec::new();
    let mut i: usize = 0;
    let mut j: usize = 0;
    while i < a.len() || j < b.len()
        invariant
            i <= a@.len(),
            j <= b@.len(),
            r@.len() == i + j,
            ia == tmp_ids(a@),
            ib == tmp_ids(b@),
            tmp_sorted(a@),
            tmp_sorted(b@),
            ia.no_duplicates(),
            ib.no_duplicates(),
            forall|x: usize| !(ia.contains(x) && ib.contains(x)),
            tmp_sorted(r@),
            tmp_stable(a@, rank),
            tmp_stable(b@, rank),
            forall|p: int, q: int| 0 <= p < a@.len() && 0 <= q < b@.len() ==> rank(#[trigger] a@[p].idx) < rank(#[trigger] b@[q].idx),
            tmp_stable(r@, rank),
            i < a@.len() ==> forall|p: int|
                0 <= p < r@.len() && val(#[trigger] r@[p].distance) == val(a@[i as int].distance) ==> rank(r@[p].idx)
                    < rank(a@[i as int].idx),
            j < b@.len() ==> forall|p: int|
                0 <= p < r@.len() && val(#[trigger] r@[p].distance) == val(b@[j as int].distance) ==> rank(r@[p].idx)
                    < rank(b@[j as int].idx),
            r@.len() > 0 && i < a@.len() ==> val(r@[r@.len() - 1].distance) <= val(a@[i as int].distance),
            r@.len() > 0 && j < b@.len() ==> val(r@[r@.len() - 1].distance) <= val(b@[j as int].distance),
            tmp_ids(r@).no_duplicates(),
            tmp_ids(r@).to_set() == ia.subrange(0, i as int).to_set().union(ib.subrange(0, j as int).to_set()),
            forall|k: int| 0 <= k < r@.len() ==> a@.contains(#[trigger] r@[k]) || b@.contains(r@[k]),
        decreases a@.len() + b@.len() - i - j,
    {
        let take_a = j == b.len() || (i < a.len() && !b[j].distance.is_less(&a[i].distance));
        let ghost old_r = r@;
        let ghost x: usize;
        if take_a {
            r.push(Tmp { distance: a[i].distance, idx: a[i].idx });
            proof {
                x = a@[i as int].idx;
                assert(a@.contains(a@[i as int]));
                assert(ia.subrange(0, i + 1) =~= ia.subrange(0, i as int).push(x));
                ia.subrange(0, i as int).lemma_push_to_set_commute(x);
                assert(!ia.subrange(0, i as int).contains(x)) by {
                    if ia.subrange(0, i as int).contains(x) {
                        let w = choose|w: int| 0 <= w < i && #[trigger] ia.subrange(0, i as int)[w] == x;
                        assert(ia[w] == ia[i as int]);
                    }
                }
                assert(ia.contains(x)) by {
                    assert(ia[i as int] == x);
                }
                assert(!ib.subrange(0, j as int).contains(x)) by {
                    if ib.subrange(0, j as int).contains(x) {
                        let w = choose|w: int| 0 <= w < j && #[trigger] ib.subrange(0, j as int)[w] == x;
                        assert(ib[w] == x);
                    }
                }
                if i + 1 < a@.len() {
                    assert(val(a@[i as int].distance) <= val(a@[i + 1].distance));
                }
            }
            i = i + 1;
        } else {
            r.push(Tmp { distance: b[j].distance, idx: b[j].idx });
            proof {
                x = b@[j as int].idx;
                assert(b@.contains(b@[j as int]));
                assert(ib.subrange(0, j + 1) =~= ib.subrange(0, j as int).push(x));
                ib.subrange(0, j as int).lemma_push_to_set_commute(x);
                assert(!ib.subrange(0, j as int).contains(x)) by {
                    if ib.subrange(0, j as int).contains(x) {
                        let w = choose|w: int| 0 <= w < j && #[trigger] ib.subrange(0, j as int)[w] == x;
                        assert(ib[w] == ib[j as int]);
                    }
                }
                assert(ib.contains(x)) by {
                    assert(ib[j as int] == x);
                }
                assert(!ia.subrange(0, i as int).contains(x)) by {
                    if ia.subrange(0, i as int).contains(x) {
                        let w = choose|w: int| 0 <= w < i && #[trigger] ia.subrange(0, i as int)[w] == x;
                        assert(ia[w] == x);
                    }
                }
                if j + 1 < b@.len() {
                    assert(val(b@[j as int].distance) <= val(b@[j + 1].distance));
                }
            }
            j = j + 1;
        }
        proof {
            assert(tmp_ids(r@) =~= tmp_ids(old_r).push(x));
            tmp_ids(old_r).lemma_push_to_set_commute(x);
            assert(!tmp_ids(old_r).contains(x)) by {
                if tmp_ids(old_r).contains(x) {
                    assert(tmp_ids(old_r).to_set().contains(x));
                }
            }
            assert(tmp_ids(r@).to_set() =~= ia.subrange(0, i as int).to_set().union(ib.subrange(0, j as int).to_set()));
            assert(tmp_ids(r@).no_duplicates()) by {
                assert forall|p: int, q: int| 0 <= p < q < tmp_ids(r@).len() implies tmp_ids(r@)[p] != tmp_ids(r@)[q] by {
                    if q == old_r.len() {
                        assert(tmp_ids(old_r).contains(tmp_ids(r@)[p]) || p == q);
                        assert(tmp_ids(old_r)[p] == tmp_ids(r@)[p]);
                    } else {
                        assert(tmp_ids(old_r)[p] == tmp_ids(r@)[p]);
                        assert(tmp_ids(old_r)[q] == tmp_ids(r@)[q]);
                    }
                }
            }
        }
    }
    proof {
        assert(ia.subrange(0, i as int) =~= ia);
        assert(ib.subrange(0, j as int) =~= ib);
    }
    r
}

/// Sorts `v` by ascending distance; on equal distances the earlier pair
/// comes first.
fn merge_sort_by_distance<Item: MetricSpace<Impl>, Impl>(
    v: Vec<Tmp<Item, Impl>>,
    Ghost(rank): Ghost<spec_fn(usize) -> int>,
) -> (r: Vec<Tmp<Item, Impl>>)
    requires
        tmp_ids(v@).no_duplicates(),
        forall|p: int, q: int| 0 <= p < q < v@.len() ==> rank(#[trigger] v@[p].idx) < rank(#[trigger] v@[q].idx),
    ensures
        r@.len() == v@.len(),
        tmp_sorted(r@),
        tmp_stable(r@, rank),
        tmp_ids(r@).no_duplicates(),
        tmp_ids(r@).to_set() == tmp_ids(v@).to_set(),
        forall|k: int| 0 <= k < r@.len() ==> v@.contains(#[trigger] r@[k]),
    decreases v@.len(),
{
    if v.len() <= 1 {
        proof {
            assert(forall|k: int| 0 <= k < v@.len() ==> v@.contains(#[trigger] v@[k]));
        }
        return v;
    }
    let n = v.len();
    let mid = n / 2;
    let mut left: Vec<Tmp<Item, Impl>> = Vec::new();
    let mut right: Vec<Tmp<Item, Impl>> = Vec::new();
    let mut k: usize = 0;
    while k < n
        invariant
            k <= n,
            n == v@.len(),
            mid < n,
            k <= mid ==> left@ == v@.subrange(0, k as int) && right@.len() == 0,
            k > mid ==> left@ == v@.subrange(0, mid as int) && right@ == v@.subrange(mid as int, k as int),
        decreases n - k,
    {
        if k < mid {
            left.push(Tmp { distance: v[k].distance, idx: v[k].idx });
        } else {
            right.push(Tmp { distance: v[k].distance, idx: v[k].idx });
        }
        proof {
            assert(v@.subrange(0, k + 1) =~= v@.subrange(0, k as int).push(v@[k as int]));
            assert(k >= mid ==> v@.subrange(mid as int, k + 1) =~= v@.subrange(mid as int, k as int).push(v@[k as int]));
        }
        k = k + 1;
    }
    let ghost iv = tmp_ids(v@);
    proof {
        assert(left@ =~= v@.subrange(0, mid as int));
        assert(right@ =~= v@.subrange(mid as int, n as int));
        assert(tmp_ids(left@) =~= iv.subrange(0, mid as int));
        assert(tmp_ids(right@) =~= iv.subrange(mid as int, n as int));
    }
    let sl = merge_sort_by_distance(left, Ghost(rank));
    let sr = merge_sort_by_distance(right, Ghost(rank));
    proof {
        assert forall|x: usize| !(tmp_ids(sl@).contains(x) && tmp_ids(sr@).contains(x)) by {
            if tmp_ids(sl@).contains(x) && tmp_ids(sr@).contains(x) {
                assert(tmp_ids(sl@).to_set().contains(x));
                assert(tmp_ids(sr@).to_set().contains(x));
                let p = choose|p: int| 0 <= p < mid && #[trigger] iv.subrange(0, mid as int)[p] == x;
                let q = choose|q: int| 0 <= q < n - mid && #[trigger] iv.subrange(mid as int, n as int)[q] == x;
                assert(iv[p] == iv[mid + q]);
            }
        }
    }
    proof {
        assert forall|p: int, q: int| 0 <= p < sl@.len() && 0 <= q < sr@.len() implies rank(#[trigger] sl@[p].idx)
            < rank(#[trigger] sr@[q].idx) by {
            assert(left@.contains(sl@[p]));
            assert(right@.contains(sr@[q]));
            let w1 = choose|w: int| 0 <= w < left@.len() && left@[w] == sl@[p];
            let w2 = choose|w: int| 0 <= w < right@.len() && right@[w] == sr@[q];
            assert(v@[w1] == sl@[p]);
            assert(v@[mid + w2] == sr@[q]);
        }
    }
    let r = merge_by_distance(sl, sr, Ghost(rank));
    proof {
        assert(iv =~= iv.subrange(0, mid as int) + iv.subrange(mid as int, n as int));
        vstd::seq_lib::seq_to_set_distributes_over_add(iv.subrange(0, mid as int), iv.subrange(mid as int, n as int));
        assert forall|k: int| 0 <= k < r@.len() implies v@.contains(#[trigger] r@[k]) by {
            if sl@.contains(r@[k]) {
                let p = choose|p: int| 0 <= p < sl@.len() && sl@[p] == r@[k];
                assert(left@.contains(sl@[p]));
                let w = choose|w: int| 0 <= w < left@.len() && left@[w] == sl@[p];
                assert(v@[w] == r@[k]);
            } else {
                let p = choose|p: int| 0 <= p < sr@.len() && sr@[p] == r@[k];
                assert(right@.contains(sr@[p]));
                let w = choose|w: int| 0 <= w < right@.len() && right@[w] == sr@[p];
                assert(v@[mid + w] == r@[k]);
            }
        }
    }
    r
}

/// Sorts `rest` by ascending distance from `vantage_point`; equal distances
/// keep the order they had in `rest`.
fn sort_indexes_by_distance<Item: MetricSpace<Impl>, Impl>(
    vantage_point: &Item,
    rest: &Vec<usize>,
    items: &Vec<Item>,
    user_data: &Item::UserData,
) -> (r: Vec<Tmp<Item, Impl>>)
    requires
        rest@.no_duplicates(),
        forall|a: int| 0 <= a < rest@.len() ==> #[trigger] rest@[a] < items@.len(),
    ensures
        r@.len() == rest@.len(),
        tmp_sorted(r@),
        forall|a: int, b: int|
            0 <= a < b < r@.len() && val(#[trigger] r@[a].distance) == val(#[trigger] r@[b].distance)
                ==> position_in(rest@, r@[a].idx) < position_in(rest@, r@[b].idx),
        forall|a: int| 0 <= a < r@.len() ==> (#[trigger] r@[a]).idx < items@.len(),
        tmp_ids(r@).to_set() == rest@.to_set(),
        tmp_ids(r@).no_duplicates(),
        forall|a: int|
            0 <= a < r@.len() ==> (#[trigger] r@[a]).distance == vantage_point.spec_distance(
                &items@[r@[a].idx as int],
                user_data,
            ),
        forall|a: int|
            0 <= a < r@.len() ==> val((#[trigger] r@[a]).distance) == dist::<Item, Impl>(
                *vantage_point,
                items@[r@[a].idx as int],
                *user_data,
            ),
{
    let mut pairs: Vec<Tmp<Item, Impl>> = Vec::new();
    let mut t: usize = 0;
    while t < rest.len()
        invariant
            t <= rest@.len(),
            tmp_ids(pairs@) == rest@.subrange(0, t as int),
            forall|a: int| 0 <= a < rest@.len() ==> #[trigger] rest@[a] < items@.len(),
            forall|a: int|
                0 <= a < pairs@.len() ==> (#[trigger] pairs@[a]).distance == vantage_point.spec_distance(
                    &items@[pairs@[a].idx as int],
                    user_data,
                ),
            forall|a: int|
                0 <= a < pairs@.len() ==> val((#[trigger] pairs@[a]).distance) == dist::<Item, Impl>(
                    *vantage_point,
                    items@[pairs@[a].idx as int],
                    *user_data,
                ),
        decreases rest@.len() - t,
    {
        let id = rest[t];
        let d = vantage_point.distance(&items[id], user_data);
        let ghost old_pairs = pairs@;
        pairs.push(Tmp { distance: d, idx: id });
        proof {
            assert(tmp_ids(pairs@) =~= tmp_ids(old_pairs).push(id));
            assert(rest@.subrange(0, t + 1) =~= rest@.subrange(0, t as int).push(id));
        }
        t = t + 1;
    }
    proof {
        assert(rest@.subrange(0, t as int) =~= rest@);
    }
    let ghost rank = |x: usize| position_in(rest@, x);
    proof {
        assert forall|k: int| 0 <= k < rest@.len() implies position_in(rest@, #[trigger] rest@[k]) == k by {
            let w = position_in(rest@, rest@[k]);
            assert(rest@[w] == rest@[k]);
        }
        assert forall|p: int, q: int| 0 <= p < q < pairs@.len() implies rank(#[trigger] pairs@[p].idx) < rank(
            #[trigger] pairs@[q].idx,
        ) by {
            assert(pairs@[p].idx == tmp_ids(pairs@)[p]);
            assert(pairs@[q].idx == tmp_ids(pairs@)[q]);
            assert(rest@[p] == pairs@[p].idx);
            assert(rest@[q] == pairs@[q].idx);
        }
    }
    let r = merge_sort_by_distance(pairs, Ghost(rank));
    proof {
        assert forall|a: int| 0 <= a < r@.len() implies (#[trigger] r@[a]).idx < items@.len() && val(r@[a].distance) == dist::<Item, Impl>(
            *vantage_point,
            items@[r@[a].idx as int],
            *user_data,
        ) && r@[a].distance == vantage_point.spec_distance(&items@[r@[a].idx as int], user_data) by {
            let w = choose|w: int| 0 <= w < pairs@.len() && pairs@[w] == r@[a];
            assert(tmp_ids(pairs@)[w] == pairs@[w].idx);
        }
    }
    r
}

/// One partition element of the arena.
struct Node<Item: MetricSpace<Impl>, Impl> {
    /// Position of the child holding items at most `radius` away, or `NO_NODE`.
    near: usize,
    /// Position of the child holding items at least `radius` away, or `NO_NODE`.
    far: usize,
    /// Distance that separates the two children; the largest distance in a leaf.
    radius: Item::Distance,
    /// Original index of the vantage point.
    idx: usize,
}

/// Node `j` and its children occupy the positions `j..ends[j]`, in the order
/// node, near subtree, far subtree, split at the median.
spec fn shape_ok<Item: MetricSpace<Impl>, Impl>(nodes: Seq<Node<Item, Impl>>, ends: Map<int, int>, j: int) -> bool {
    let nd = nodes[j];
    let e = ends[j];
    &&& ends.contains_key(j)
    &&& j < e <= nodes.len()
    &&& nd.near != NO_NODE ==> {
        &&& nd.near == j + 1
        &&& nd.near < e
        &&& ends.contains_key(nd.near as int)
        &&& ends[nd.near as int] == if nd.far == NO_NODE {
            e
        } else {
            nd.far as int
        }
    }
    &&& nd.far != NO_NODE ==> {
        &&& j < nd.far < e
        &&& ends.contains_key(nd.far as int)
        &&& ends[nd.far as int] == e
    }
    &&& nd.near == NO_NODE && nd.far == NO_NODE ==> e == j + 1
    &&& nd.near == NO_NODE && nd.far != NO_NODE ==> nd.far == j + 1
    // median split: of the `e - j - 1` items below the node, half (rounded
    // down) go near and the rest far; a near child exists from three items on
    &&& e - j >= 2 ==> nd.far != NO_NODE && nd.far == j + 1 + (e - j - 1) / 2
    &&& (nd.near != NO_NODE) == (e - j >= 3)
    // a leaf's radius is the largest distance
    &&& e - j == 1 ==> val(nd.radius) == top::<Item::Distance>()
}

/// Position `m` lies in the near subtree of node `j`.
spec fn in_near<Item: MetricSpace<Impl>, Impl>(nodes: Seq<Node<Item, Impl>>, ends: Map<int, int>, j: int, m: int) -> bool {
    nodes[j].near != NO_NODE && nodes[j].near <= m < ends[nodes[j].near as int]
}

/// Position `m` lies in the far subtree of node `j`.
spec fn in_far<Item: MetricSpace<Impl>, Impl>(nodes: Seq<Node<Item, Impl>>, ends: Map<int, int>, j: int, m: int) -> bool {
    nodes[j].far != NO_NODE && nodes[j].far <= m < ends[nodes[j].far as int]
}

/// The items under node `j` lie on the side of its radius that their
/// subtree promises, and the radius is the distance to the far child's
/// vantage point, the first item of the far half.
spec fn part_ok<Item: MetricSpace<Impl>, Impl>(
    nodes: Seq<Node<Item, Impl>>,
    ends: Map<int, int>,
    items: Seq<Item>,
    user_data: Item::UserData,
    j: int,
) -> bool {
    &&& forall|m: int| #[trigger] in_near(nodes, ends, j, m) ==> dist::<Item, Impl>(items[nodes[j].idx as int], items[nodes[m].idx as int], user_data) <= val(nodes[j].radius)
    &&& forall|m: int| #[trigger] in_far(nodes, ends, j, m) ==> dist::<Item, Impl>(items[nodes[j].idx as int], items[nodes[m].idx as int], user_data) >= val(nodes[j].radius)
    &&& nodes[j].far != NO_NODE ==> nodes[j].radius == items[nodes[j].idx as int].spec_distance(
        &items[nodes[nodes[j].far as int].idx as int],
        &user_data,
    )
}

/// The positions `p..q` of `nodes` form complete subtrees over exactly the
/// original indexes of `ids`, each once.
spec fn block_inner<Item: MetricSpace<Impl>, Impl>(
    nodes: Seq<Node<Item, Impl>>,
    ends: Map<int, int>,
    items: Seq<Item>,
    user_data: Item::UserData,
    ids: Seq<usize>,
    p: int,
    q: int,
) -> bool {
    &&& forall|m: int| p <= m < q ==> #[trigger] ends.contains_key(m) && ends[m] <= q
    &&& forall|m: int| p <= m < q ==> #[trigger] shape_ok(nodes, ends, m)
    &&& forall|m: int| p <= m < q ==> #[trigger] part_ok(nodes, ends, items, user_data, m)
    &&& forall|m: int| p <= m < q ==> ids.contains(#[trigger] nodes[m].idx)
    &&& forall|m1: int, m2: int|
        p <= m1 < q && p <= m2 < q && m1 != m2 ==> #[trigger] nodes[m1].idx != #[trigger] nodes[m2].idx
    &&& forall|x: usize| ids.contains(x) ==> exists|m: int| p <= m < q && #[trigger] nodes[m].idx == x
}

/// `block_inner`, with `ends` defined on `p..q` alone.
spec fn block_ok<Item: MetricSpace<Impl>, Impl>(
    nodes: Seq<Node<Item, Impl>>,
    ends: Map<int, int>,
    items: Seq<Item>,
    user_data: Item::UserData,
    ids: Seq<usize>,
    p: int,
    q: int,
) -> bool {
    &&& forall|m: int| #[trigger] ends.contains_key(m) ==> p <= m < q
    &&& block_inner(nodes, ends, items, user_data, ids, p, q)
}

/// A block stays complete when nodes outside it change and `ends` grows.
proof fn lemma_block_transfer<Item: MetricSpace<Impl>, Impl>(
    nodes_a: Seq<Node<Item, Impl>>,
    ends_a: Map<int, int>,
    nodes_b: Seq<Node<Item, Impl>>,
    ends_b: Map<int, int>,
    items: Seq<Item>,
    user_data: Item::UserData,
    ids: Seq<usize>,
    p: int,
    q: int,
)
    requires
        block_inner(nodes_a, ends_a, items, user_data, ids, p, q),
        nodes_b.len() >= q,
        forall|m: int| p <= m < q ==> nodes_b[m] == nodes_a[m],
        forall|m: int| p <= m < q ==> ends_b.contains_key(m) && ends_b[m] == ends_a[m],
    ensures
        block_inner(nodes_b, ends_b, items, user_data, ids, p, q),
{
    assert forall|m: int| p <= m < q implies #[trigger] ends_b.contains_key(m) && ends_b[m] <= q by {
        assert(ends_a.contains_key(m));
    }
    assert forall|m: int| p <= m < q implies #[trigger] shape_ok(nodes_b, ends_b, m) by {
        assert(shape_ok(nodes_a, ends_a, m));
    }
    assert forall|m: int| p <= m < q implies #[trigger] part_ok(nodes_b, ends_b, items, user_data, m) by {
        assert(shape_ok(nodes_a, ends_a, m));
        assert(part_ok(nodes_a, ends_a, items, user_data, m));
        assert forall|k: int| #[trigger] in_near(nodes_b, ends_b, m, k) implies dist::<Item, Impl>(
            items[nodes_b[m].idx as int],
            items[nodes_b[k].idx as int],
            user_data,
        ) <= val(nodes_b[m].radius) by {
            assert(in_near(nodes_a, ends_a, m, k));
        }
        assert forall|k: int| #[trigger] in_far(nodes_b, ends_b, m, k) implies dist::<Item, Impl>(
            items[nodes_b[m].idx as int],
            items[nodes_b[k].idx as int],
            user_data,
        ) >= val(nodes_b[m].radius) by {
            assert(in_far(nodes_a, ends_a, m, k));
        }
    }
    assert forall|m: int| p <= m < q implies ids.contains(#[trigger] nodes_b[m].idx) by {
        assert(ids.contains(nodes_a[m].idx));
    }
    assert forall|m1: int, m2: int|
        p <= m1 < q && p <= m2 < q && m1 != m2 implies #[trigger] nodes_b[m1].idx != #[trigger] nodes_b[m2].idx by {
        assert(nodes_a[m1].idx != nodes_a[m2].idx);
    }
    assert forall|x: usize| ids.contains(x) implies exists|m: int| p <= m < q && #[trigger] nodes_b[m].idx == x by {
        let m = choose|m: int| p <= m < q && #[trigger] nodes_a[m].idx == x;
        assert(nodes_b[m].idx == x);
    }
}

/// The block built by one step of `create_node`: the vantage point at `p`,
/// the near half after it, then the far half.
proof fn lemma_build_step<Item: MetricSpace<Impl>, Impl>(
    nodes1: Seq<Node<Item, Impl>>,
    nodes2: Seq<Node<Item, Impl>>,
    nodes3: Seq<Node<Item, Impl>>,
    nodes_f: Seq<Node<Item, Impl>>,
    en: Map<int, int>,
    ef: Map<int, int>,
    ends: Map<int, int>,
    items: Seq<Item>,
    user_data: Item::UserData,
    ids: Seq<usize>,
    rest: Seq<usize>,
    sorted: Seq<Tmp<Item, Impl>>,
    near_ids: Seq<usize>,
    far_ids: Seq<usize>,
    p: int,
    half: int,
)
    requires
        ids.len() >= 2,
        0 <= p,
        p + ids.len() <= usize::MAX,
        ids.no_duplicates(),
        rest == ids.subrange(1, ids.len() as int),
        sorted.len() == ids.len() - 1,
        tmp_sorted(sorted),
        tmp_ids(sorted).to_set() == rest.to_set(),
        tmp_ids(sorted).no_duplicates(),
        forall|a: int| 0 <= a < sorted.len() ==> val((#[trigger] sorted[a]).distance) == dist::<Item, Impl>(
            items[ids[0] as int],
            items[sorted[a].idx as int],
            user_data,
        ),
        half == (ids.len() - 1) / 2,
        near_ids == tmp_ids(sorted).subrange(0, half),
        far_ids == tmp_ids(sorted).subrange(half, ids.len() - 1),
        nodes1.len() == p + 1,
        nodes2.len() == p + 1 + half,
        forall|m: int| 0 <= m < p + 1 ==> #[trigger] nodes2[m] == nodes1[m],
        block_ok(nodes2, en, items, user_data, near_ids, p + 1, p + 1 + half),
        half > 0 ==> en[p + 1] == p + 1 + half,
        nodes3.len() == p + ids.len(),
        forall|m: int| 0 <= m < p + 1 + half ==> #[trigger] nodes3[m] == nodes2[m],
        block_ok(nodes3, ef, items, user_data, far_ids, p + 1 + half, p + ids.len()),
        ef[p + 1 + half] == p + ids.len(),
        nodes3[p + 1 + half].idx == far_ids[0],
        forall|a: int| 0 <= a < sorted.len() ==> (#[trigger] sorted[a]).distance == items[ids[0] as int].spec_distance(
            &items[sorted[a].idx as int],
            &user_data,
        ),
        nodes_f.len() == nodes3.len(),
        forall|m: int| 0 <= m < nodes3.len() && m != p ==> #[trigger] nodes_f[m] == nodes3[m],
        nodes_f[p].near == if half == 0 {
            NO_NODE
        } else {
            (p + 1) as usize
        },
        nodes_f[p].far == (p + 1 + half) as usize,
        nodes_f[p].far != NO_NODE,
        half > 0 ==> nodes_f[p].near != NO_NODE,
        nodes_f[p].radius == sorted[half].distance,
        nodes_f[p].idx == ids[0],
        ends == en.union_prefer_right(ef).insert(p, p + ids.len()),
    ensures
        block_ok(nodes_f, ends, items, user_data, ids, p, p + ids.len()),
{
    let len = ids.len() as int;
    let q = p + len;
    let sids = tmp_ids(sorted);
    let mid = p + 1 + half;
    assert forall|m: int| p + 1 <= m < mid implies ends.contains_key(m) && ends[m] == en[m] by {
        assert(en.contains_key(m));
        assert(!ef.contains_key(m));
    }
    assert forall|m: int| mid <= m < q implies ends.contains_key(m) && ends[m] == ef[m] by {
        assert(ef.contains_key(m));
    }
    lemma_block_transfer(nodes2, en, nodes_f, ends, items, user_data, near_ids, p + 1, mid);
    lemma_block_transfer(nodes3, ef, nodes_f, ends, items, user_data, far_ids, mid, q);
    // which half holds an index, and where it stands in `sorted`
    assert forall|x: usize| near_ids.contains(x) implies exists|a: int| 0 <= a < half && #[trigger] sids[a] == x by {
        let w = choose|w: int| 0 <= w < near_ids.len() && near_ids[w] == x;
        assert(sids[w] == x);
    }
    assert forall|x: usize| far_ids.contains(x) implies exists|a: int| half <= a < len - 1 && #[trigger] sids[a] == x by {
        let w = choose|w: int| 0 <= w < far_ids.len() && far_ids[w] == x;
        assert(sids[half + w] == x);
    }
    assert forall|x: usize| sids.contains(x) implies rest.contains(x) && x != ids[0] by {
        assert(sids.to_set().contains(x));
        let w = choose|w: int| 0 <= w < rest.len() && rest[w] == x;
        assert(ids[w + 1] == x);
    }
    assert(half < len - 1);
    assert(forall|m: int| #[trigger] ef.contains_key(m) ==> mid <= m < q);
    assert(forall|m: int| #[trigger] en.contains_key(m) ==> p + 1 <= m < mid);
    assert(ends[p] == q);
    assert(ef.contains_key(mid));
    assert(ends[mid] == q);
    if half > 0 {
        assert(en.contains_key(p + 1));
        assert(ends[p + 1] == mid);
    }
    assert(shape_ok(nodes_f, ends, p));
    assert(far_ids[0] == sids[half]);
    assert(nodes_f[mid].idx == sids[half]);
    assert(part_ok(nodes_f, ends, items, user_data, p)) by {
        assert forall|k: int| #[trigger] in_near(nodes_f, ends, p, k) implies dist::<Item, Impl>(
            items[nodes_f[p].idx as int],
            items[nodes_f[k].idx as int],
            user_data,
        ) <= val(nodes_f[p].radius) by {
            let x = nodes_f[k].idx;
            assert(near_ids.contains(x));
            let a = choose|a: int| 0 <= a < half && #[trigger] sids[a] == x;
            assert(val(sorted[a].distance) <= val(sorted[half].distance));
        }
        assert forall|k: int| #[trigger] in_far(nodes_f, ends, p, k) implies dist::<Item, Impl>(
            items[nodes_f[p].idx as int],
            items[nodes_f[k].idx as int],
            user_data,
        ) >= val(nodes_f[p].radius) by {
            let x = nodes_f[k].idx;
            assert(far_ids.contains(x));
            let a = choose|a: int| half <= a < len - 1 && #[trigger] sids[a] == x;
            assert(val(sorted[half].distance) <= val(sorted[a].distance));
        }
    }
    assert forall|m: int| p <= m < q implies #[trigger] ends.contains_key(m) && ends[m] <= q by {
        if m == p {
        } else if m < mid {
            assert(en.contains_key(m));
            assert(ends[m] == en[m]);
        } else {
            assert(ef.contains_key(m));
            assert(ends[m] == ef[m]);
        }
    }
    assert(forall|m: int| p <= m < q ==> #[trigger] shape_ok(nodes_f, ends, m));
    assert(forall|m: int| p <= m < q ==> #[trigger] part_ok(nodes_f, ends, items, user_data, m));
    assert forall|m: int| p <= m < q implies ids.contains(#[trigger] nodes_f[m].idx) by {
        let x = nodes_f[m].idx;
        if m == p {
            assert(ids[0] == x);
        } else if m < mid {
            assert(near_ids.contains(x));
            let a = choose|a: int| 0 <= a < half && #[trigger] sids[a] == x;
            assert(sids.contains(x));
            let w = choose|w: int| 0 <= w < rest.len() && rest[w] == x;
            assert(ids[w + 1] == x);
        } else {
            assert(far_ids.contains(x));
            let a = choose|a: int| half <= a < len - 1 && #[trigger] sids[a] == x;
            assert(sids.contains(x));
            let w = choose|w: int| 0 <= w < rest.len() && rest[w] == x;
            assert(ids[w + 1] == x);
        }
    }
    assert forall|m1: int, m2: int|
        p <= m1 < q && p <= m2 < q && m1 != m2 implies #[trigger] nodes_f[m1].idx != #[trigger] nodes_f[m2].idx by {
        let x1 = nodes_f[m1].idx;
        let x2 = nodes_f[m2].idx;
        if m1 != p && m1 < mid {
            assert(near_ids.contains(x1));
        } else if m1 != p {
            assert(far_ids.contains(x1));
        }
        if m2 != p && m2 < mid {
            assert(near_ids.contains(x2));
        } else if m2 != p {
            assert(far_ids.contains(x2));
        }
        if x1 == x2 {
            if m1 == p {
                let a = choose|a: int| 0 <= a < len - 1 && #[trigger] sids[a] == x2;
                assert(sids.contains(x2));
            } else if m2 == p {
                let a = choose|a: int| 0 <= a < len - 1 && #[trigger] sids[a] == x1;
                assert(sids.contains(x1));
            } else if (m1 < mid) != (m2 < mid) {
                let a1 = choose|a: int| 0 <= a < len - 1 && #[trigger] sids[a] == x1 && (a < half <==> m1 < mid);
                let a2 = choose|a: int| 0 <= a < len - 1 && #[trigger] sids[a] == x2 && (a < half <==> m2 < mid);
                assert(a1 != a2);
            }
        }
    }
    assert forall|x: usize| ids.contains(x) implies exists|m: int| p <= m < q && #[trigger] nodes_f[m].idx == x by {
        if x == ids[0] {
            assert(nodes_f[p].idx == x);
        } else {
            let w = choose|w: int| 0 <= w < ids.len() && ids[w] == x;
            assert(rest[w - 1] == x);
            assert(rest.to_set().contains(x));
            assert(sids.contains(x));
            let a = choose|a: int| 0 <= a < sids.len() && sids[a] == x;
            if a < half {
                assert(near_ids[a] == x);
                assert(near_ids.contains(x));
            } else {
                assert(far_ids[a - half] == x);
                assert(far_ids.contains(x));
            }
        }
    }
}

/// Builds the subtree over `ids` at the end of `nodes`: the first index is
/// the vantage point, the rest are sorted by distance from it (equal
/// distances keep their order) and split at the median, half rounded down
/// near and the rest far; the radius is the distance of the first item of the
/// far half, so items at exactly that distance may lie on either side, and a
/// leaf's radius is the largest distance. Returns the subtree's position,
/// where the first id stands, or `NO_NODE` for no ids.
fn create_node<Item: MetricSpace<Impl>, Impl>(
    ids: Vec<usize>,
    nodes: &mut Vec<Node<Item, Impl>>,
    items: &Vec<Item>,
    user_data: &Item::UserData,
) -> (r: (usize, Ghost<Map<int, int>>))
    requires
        ids@.no_duplicates(),
        forall|a: int| 0 <= a < ids@.len() ==> #[trigger] ids@[a] < items@.len(),
        old(nodes)@.len() + ids@.len() <= items@.len(),
    ensures
        final(nodes)@.len() == old(nodes)@.len() + ids@.len(),
        forall|m: int| 0 <= m < old(nodes)@.len() ==> #[trigger] final(nodes)@[m] == old(nodes)@[m],
        r.0 == if ids@.len() == 0 {
            NO_NODE
        } else {
            old(nodes)@.len() as usize
        },
        ids@.len() > 0 ==> r.1@[old(nodes)@.len() as int] == old(nodes)@.len() + ids@.len(),
        ids@.len() > 0 ==> final(nodes)@[old(nodes)@.len() as int].idx == ids@[0],
        block_ok(
            final(nodes)@,
            r.1@,
            items@,
            *user_data,
            ids@,
            old(nodes)@.len() as int,
            (old(nodes)@.len() + ids@.len()) as int,
        ),
    decreases ids@.len(),
{
    let p = nodes.len();
    let len = ids.len();
    // positions stay below `items.len()`, so they fit in a `usize`
    let n_items = items.len();
    proof {
        assert(p + len <= n_items);
    }
    if len == 0 {
        return (NO_NODE, Ghost(Map::empty()));
    }
    if len == 1 {
        nodes.push(Node { near: NO_NODE, far: NO_NODE, radius: Item::Distance::max_value(), idx: ids[0] });
        let ghost ends = Map::empty().insert(p as int, p + 1);
        proof {
            assert(ids@.contains(ids@[0]));
            assert forall|x: usize| ids@.contains(x) implies exists|m: int| p <= m < p + 1 && #[trigger] nodes@[m].idx == x by {
                let w = choose|w: int| 0 <= w < ids@.len() && ids@[w] == x;
                assert(nodes@[p as int].idx == x);
            }
        }
        return (p, Ghost(ends));
    }
    let ref_idx = ids[0];
    let mut rest: Vec<usize> = Vec::new();
    let mut t: usize = 1;
    while t < len
        invariant
            1 <= t <= len,
            len == ids@.len(),
            rest@ == ids@.subrange(1, t as int),
        decreases len - t,
    {
        rest.push(ids[t]);
        t = t + 1;
    }
    proof {
        assert(rest@ =~= ids@.subrange(1, len as int));
    }
    let sorted = sort_indexes_by_distance(&items[ref_idx], &rest, items, user_data);
    let half = sorted.len() / 2;
    let radius = sorted[half].distance;
    let mut near_ids: Vec<usize> = Vec::new();
    let mut far_ids: Vec<usize> = Vec::new();
    let mut a: usize = 0;
    while a < sorted.len()
        invariant
            a <= sorted@.len(),
            half <= sorted@.len(),
            a <= half ==> near_ids@ == tmp_ids(sorted@).subrange(0, a as int) && far_ids@.len() == 0,
            a > half ==> near_ids@ == tmp_ids(sorted@).subrange(0, half as int) && far_ids@ == tmp_ids(sorted@).subrange(half as int, a as int),
        decreases sorted@.len() - a,
    {
        if a < half {
            near_ids.push(sorted[a].idx);
        } else {
            far_ids.push(sorted[a].idx);
        }
        a = a + 1;
    }
    let ghost sids = tmp_ids(sorted@);
    proof {
        assert(near_ids@ =~= sids.subrange(0, half as int));
        assert(far_ids@ =~= sids.subrange(half as int, sids.len() as int));
        assert(rest@.no_duplicates());
        assert(sids.no_duplicates());
    }
    proof {
        assert(far_ids@.len() > 0);
        assert(near_ids@.len() == half);
    }
    nodes.push(Node { near: NO_NODE, far: NO_NODE, radius, idx: ref_idx });
    let ghost nodes1 = nodes@;
    let (near, en) = create_node(near_ids, nodes, items, user_data);
    let ghost nodes2 = nodes@;
    let (far, ef) = create_node(far_ids, nodes, items, user_data);
    let ghost nodes3 = nodes@;
    nodes.set(p, Node { near, far, radius, idx: ref_idx });
    let ghost ends = en@.union_prefer_right(ef@).insert(p as int, p + len);
    proof {
        lemma_build_step(
            nodes1, nodes2, nodes3, nodes@, en@, ef@, ends, items@, *user_data, ids@, rest@, sorted@,
            near_ids@, far_ids@, p as int, half as int,
        );
    }
    (p, Ghost(ends))
}


/// A complete block over the original indexes `0..n` is a well-formed arena.
proof fn lemma_arena<Item: MetricSpace<Impl>, Impl>(
    nodes: Seq<Node<Item, Impl>>,
    ends: Map<int, int>,
    items: Seq<Item>,
    user_data: Item::UserData,
)
    requires
        nodes.len() >= 1,
        nodes.len() <= usize::MAX,
        items.len() == nodes.len(),
        ends.contains_key(0) && ends[0] == nodes.len(),
        block_ok(nodes, ends, items, user_data, Seq::new(nodes.len(), |i: int| i as usize), 0, nodes.len() as int),
    ensures
        forall|m: int| 0 <= m < nodes.len() ==> #[trigger] ends.contains_key(m) && ends[m] <= nodes.len(),
        forall|m: int| 0 <= m < nodes.len() ==> #[trigger] shape_ok(nodes, ends, m),
        forall|m1: int, m2: int|
            0 <= m1 < nodes.len() && 0 <= m2 < nodes.len() && m1 != m2 ==> #[trigger] nodes[m1].idx
                != #[trigger] nodes[m2].idx,
        forall|m: int| 0 <= m < nodes.len() ==> #[trigger] nodes[m].idx < nodes.len(),
        forall|i: int| 0 <= i < nodes.len() ==> #[trigger] placed(nodes, nodes.len() as int, i),
        forall|m: int| 0 <= m < nodes.len() ==> #[trigger] part_ok(nodes, ends, items, user_data, m),
{
    let n = nodes.len();
    let ids = Seq::new(n, |i: int| i as usize);
    assert forall|m: int| 0 <= m < n implies #[trigger] nodes[m].idx < n by {
        assert(ids.contains(nodes[m].idx));
    }
    assert forall|i: int| 0 <= i < n implies #[trigger] placed(nodes, n as int, i) by {
        assert(ids[i] == i as usize);
        assert(ids.contains(i as usize));
        let m = choose|m: int| 0 <= m < n && #[trigger] nodes[m].idx == i as usize;
        assert(nodes[m].idx as int == i);
    }
}

/// The vantage-point tree.
///
/// `Impl` tells apart several `MetricSpace` implementations for one item type.
/// `Ownership` is `Owned<U>` where the tree holds its context data, and `()`
/// where the caller passes it to every query.
pub struct Tree<Item: MetricSpace<Impl> + Clone, Impl = (), Ownership = Owned<()>> {
    /// The arena, in the order node, near subtree, far subtree.
    nodes: Vec<Node<Item, Impl>>,
    /// Clones of the indexed items, by original index.
    items: Vec<Item>,
    /// Position of the root node.
    root: usize,
    /// The context data where the tree owns it.
    user_data: Ownership,
    /// For each position, the end of the positions its subtree occupies.
    ends: Ghost<Map<int, int>>,
}

/// Some node among the first `n` has the original index `i`.
spec fn placed<Item: MetricSpace<Impl>, Impl>(nodes: Seq<Node<Item, Impl>>, n: int, i: int) -> bool {
    exists|m: int| 0 <= m < n && #[trigger] nodes[m].idx as int == i
}

/// `x` is a key of `all` with the smallest value, `d`.
pub open spec fn is_nearest(all: Map<int, int>, x: int, d: int) -> bool {
    &&& all.contains_key(x)
    &&& all[x] == d
    &&& forall|i: int| #[trigger] all.contains_key(i) ==> d <= all[i]
}

impl<Item: MetricSpace<Impl> + Clone, Impl, Ownership> Tree<Item, Impl, Ownership> {
    /// The arena holds one node per item, each item once, and every subtree
    /// occupies the positions that `ends` gives it.
    #[verifier::type_invariant]
    spec fn wf(&self) -> bool {
        let n = self.nodes@.len();
        let nodes = self.nodes@;
        let ends = self.ends@;
        &&& 1 <= n
        &&& self.items@.len() == n
        &&& self.root == 0
        &&& nodes[0].idx == 0
        &&& ends.contains_key(0) && ends[0] == n
        &&& forall|m: int| 0 <= m < n ==> #[trigger] ends.contains_key(m) && ends[m] <= n
        &&& forall|m: int| 0 <= m < n ==> #[trigger] shape_ok(nodes, ends, m)
        &&& forall|m: int| 0 <= m < n ==> #[trigger] nodes[m].idx < n
        &&& forall|m1: int, m2: int|
            0 <= m1 < n && 0 <= m2 < n && m1 != m2 ==> #[trigger] nodes[m1].idx != #[trigger] nodes[m2].idx
        &&& forall|i: int| 0 <= i < n ==> #[trigger] placed(nodes, n as int, i)
    }

    /// The indexed items, by original index (each a clone of an input item).
    pub closed spec fn points(&self) -> Seq<Item> {
        self.items@
    }

    /// Every node separates its subtrees by its radius, under `user_data`.
    pub closed spec fn built_for(&self, user_data: Item::UserData) -> bool {
        forall|m: int| 0 <= m < self.nodes@.len() ==> #[trigger] part_ok(self.nodes@, self.ends@, self.items@, user_data, m)
    }

    /// An item in the far subtree of node `k` is farther from the needle than
    /// `b`, when `d + b < radius` and `d` is the needle's distance to node `k`.
    proof fn lemma_prune_far(&self, k: int, m: int, needle: Item, user_data: Item::UserData, b: int)
        requires
            self.wf(),
            0 <= k < self.nodes@.len(),
            in_far(self.nodes@, self.ends@, k, m),
            self.built_for(user_data),
            triangle_on(needle, self.items@, user_data),
            dist::<Item, Impl>(needle, self.items@[self.nodes@[k].idx as int], user_data) + b
                < val(self.nodes@[k].radius),
        ensures
            dist::<Item, Impl>(needle, self.items@[self.nodes@[m].idx as int], user_data) > b,
    {
        assert(shape_ok(self.nodes@, self.ends@, k));
        assert(part_ok(self.nodes@, self.ends@, self.items@, user_data, k));
        assert(0 <= m < self.nodes@.len());
        let a = self.nodes@[k].idx as int;
        let c = self.nodes@[m].idx as int;
        assert(self.nodes@[k].idx < self.nodes@.len());
        assert(self.nodes@[m].idx < self.nodes@.len());
        assert(triangle_ok::<Item, Impl>(needle, self.items@[a], self.items@[c], user_data));
    }

    /// An item in the near subtree of node `k` is farther from the needle
    /// than `b`, when `d > radius + b` and `d` is the needle's distance to
    /// node `k`.
    proof fn lemma_prune_near(&self, k: int, m: int, needle: Item, user_data: Item::UserData, b: int)
        requires
            self.wf(),
            0 <= k < self.nodes@.len(),
            in_near(self.nodes@, self.ends@, k, m),
            self.built_for(user_data),
            triangle_on(needle, self.items@, user_data),
            dist::<Item, Impl>(needle, self.items@[self.nodes@[k].idx as int], user_data)
                > val(self.nodes@[k].radius) + b,
        ensures
            dist::<Item, Impl>(needle, self.items@[self.nodes@[m].idx as int], user_data) > b,
    {
        assert(shape_ok(self.nodes@, self.ends@, k));
        assert(part_ok(self.nodes@, self.ends@, self.items@, user_data, k));
        assert(0 <= m < self.nodes@.len());
        let a = self.nodes@[k].idx as int;
        let c = self.nodes@[m].idx as int;
        assert(self.nodes@[k].idx < self.nodes@.len());
        assert(self.nodes@[m].idx < self.nodes@.len());
        assert(triangle_ok::<Item, Impl>(needle, self.items@[a], self.items@[c], user_data));
    }

    /// Some node of the subtree at position `k` has the original index `i`.
    spec fn in_block(&self, k: int, i: int) -> bool {
        exists|m: int| k <= m < self.ends@[k] && #[trigger] self.nodes@[m].idx as int == i
    }

    /// The positions of node `k`'s subtree are `k` itself and those of its
    /// two children's subtrees.
    proof fn lemma_split(&self, k: int)
        requires
            self.wf(),
            0 <= k < self.nodes@.len(),
        ensures
            forall|m: int| k <= m < self.ends@[k] ==> m == k || in_near(self.nodes@, self.ends@, k, m) || in_far(self.nodes@, self.ends@, k, m),
            forall|m: int| #[trigger] in_near(self.nodes@, self.ends@, k, m) ==> k < m < self.ends@[k] && !in_far(self.nodes@, self.ends@, k, m),
            forall|m: int| #[trigger] in_far(self.nodes@, self.ends@, k, m) ==> k < m < self.ends@[k],
            self.nodes@[k].near != NO_NODE ==> self.nodes@[k].near < self.nodes@.len() && self.ends@[self.nodes@[k].near as int] - self.nodes@[k].near < self.ends@[k] - k
                && forall|m: int| self.nodes@[k].near <= m < self.ends@[self.nodes@[k].near as int] <==> #[trigger] in_near(self.nodes@, self.ends@, k, m),
            self.nodes@[k].far != NO_NODE ==> self.nodes@[k].far < self.nodes@.len() && self.ends@[self.nodes@[k].far as int] - self.nodes@[k].far < self.ends@[k] - k
                && forall|m: int| self.nodes@[k].far <= m < self.ends@[self.nodes@[k].far as int] <==> #[trigger] in_far(self.nodes@, self.ends@, k, m),
    {
        assert(shape_ok(self.nodes@, self.ends@, k));
    }

    /// Position `m` lies in the subtree visited first (`near_first`) or
    /// second from node `k`.
    spec fn in_side(&self, k: int, m: int, near: bool) -> bool {
        if near {
            in_near(self.nodes@, self.ends@, k, m)
        } else {
            in_far(self.nodes@, self.ends@, k, m)
        }
    }

    /// Position of the child of node `k` on the given side.
    spec fn child(&self, k: int, near: bool) -> int {
        if near {
            self.nodes@[k].near as int
        } else {
            self.nodes@[k].far as int
        }
    }

    /// What one step of `search_node` establishes, from what its node and
    /// its two children's walks establish.
    proof fn lemma_search_done(
        &self,
        k: int,
        needle: Item,
        user_data: Item::UserData,
        seen0: Map<int, int>,
        seen: Map<int, int>,
        s1: Map<int, int>,
        s2: Map<int, int>,
        b1: int,
        b2: int,
        near_first: bool,
        near_second: bool,
    )
        requires
            near_second == !near_first,
            self.wf(),
            0 <= k < self.nodes@.len(),
            seen == seen0.insert(self.nodes@[k].idx as int, dist::<Item, Impl>(needle, self.items@[self.nodes@[k].idx as int], user_data)),
            !seen0.contains_key(self.nodes@[k].idx as int),
            b2 <= b1,
            forall|i: int| #[trigger] seen.contains_key(i) ==> s1.contains_key(i) && s1[i] == seen[i],
            forall|i: int| #[trigger] s1.contains_key(i) ==> s2.contains_key(i) && s2[i] == s1[i],
            forall|i: int|
                #[trigger] s1.contains_key(i) && !seen.contains_key(i) ==> self.in_block(self.child(k, near_first), i)
                    && self.child(k, near_first) != NO_NODE
                    && 0 <= i < self.items@.len()
                    && s1[i] == dist::<Item, Impl>(needle, self.items@[i], user_data),
            forall|i: int|
                #[trigger] s2.contains_key(i) && !s1.contains_key(i) ==> self.in_block(self.child(k, near_second), i)
                    && self.child(k, near_second) != NO_NODE
                    && 0 <= i < self.items@.len()
                    && s2[i] == dist::<Item, Impl>(needle, self.items@[i], user_data),
            self.built_for(user_data) && triangle_on(needle, self.items@, user_data) ==> forall|m: int|
                #[trigger] self.in_side(k, m, near_first) && !s1.contains_key(self.nodes@[m].idx as int)
                    ==> dist::<Item, Impl>(needle, self.items@[self.nodes@[m].idx as int], user_data) > b1,
            self.built_for(user_data) && triangle_on(needle, self.items@, user_data) ==> forall|m: int|
                #[trigger] self.in_side(k, m, near_second) && !s2.contains_key(self.nodes@[m].idx as int)
                    ==> dist::<Item, Impl>(needle, self.items@[self.nodes@[m].idx as int], user_data) > b2,
        ensures
            s2.contains_key(self.nodes@[k].idx as int),
            forall|i: int| #[trigger] seen0.contains_key(i) ==> s2.contains_key(i) && s2[i] == seen0[i],
            forall|i: int|
                #[trigger] s2.contains_key(i) && !seen0.contains_key(i) ==> self.in_block(k, i)
                    && 0 <= i < self.items@.len()
                    && s2[i] == dist::<Item, Impl>(needle, self.items@[i], user_data),
            self.built_for(user_data) && triangle_on(needle, self.items@, user_data) ==> forall|m: int|
                k <= m < self.ends@[k] && !s2.contains_key(#[trigger] self.nodes@[m].idx as int)
                    ==> dist::<Item, Impl>(needle, self.items@[self.nodes@[m].idx as int], user_data) > b2,
    {
        let nodes = self.nodes@;
        let ends = self.ends@;
        self.lemma_split(k);
        assert(shape_ok(nodes, ends, k));
        let idk = nodes[k].idx as int;
        assert(nodes[k].idx < nodes.len());
        assert(seen.contains_key(idk));
        assert(s1.contains_key(idk));
        assert forall|i: int| #[trigger] seen0.contains_key(i) implies s2.contains_key(i) && s2[i] == seen0[i] by {
            assert(seen.contains_key(i));
            assert(s1.contains_key(i));
        }
        assert forall|i: int| #[trigger] s2.contains_key(i) && !seen0.contains_key(i) implies self.in_block(k, i)
            && 0 <= i < self.items@.len()
            && s2[i] == dist::<Item, Impl>(needle, self.items@[i], user_data) by {
            if i == idk {
                assert(seen.contains_key(i));
                assert(s1.contains_key(i));
                assert(nodes[k].idx as int == i);
                assert(self.in_block(k, i));
            } else if seen.contains_key(i) {
            } else if s1.contains_key(i) {
                let c = self.child(k, near_first);
                assert(self.in_block(c, i));
                let w = choose|w: int| c <= w < ends[c] && #[trigger] nodes[w].idx as int == i;
                assert(self.in_side(k, w, near_first));
                assert(k < w < ends[k]);
                assert(nodes[w].idx as int == i);
                assert(self.in_block(k, i));
                assert(s2[i] == s1[i]);
            } else {
                let c = self.child(k, near_second);
                assert(self.in_block(c, i));
                let w = choose|w: int| c <= w < ends[c] && #[trigger] nodes[w].idx as int == i;
                assert(self.in_side(k, w, near_second));
                assert(k < w < ends[k]);
                assert(nodes[w].idx as int == i);
                assert(self.in_block(k, i));
            }
        }
        if self.built_for(user_data) && triangle_on(needle, self.items@, user_data) {
            assert forall|m: int|
                k <= m < ends[k] && !s2.contains_key(#[trigger] nodes[m].idx as int) implies dist::<Item, Impl>(
                needle,
                self.items@[nodes[m].idx as int],
                user_data,
            ) > b2 by {
                if m == k {
                    assert(seen.contains_key(idk));
                    assert(s1.contains_key(idk));
                } else if self.in_side(k, m, near_first) {
                    assert(!s1.contains_key(nodes[m].idx as int));
                } else {
                    assert(self.in_side(k, m, near_second));
                }
            }
        }
    }

    /// The collector after a search of the whole tree from collector `c`,
    /// where each offer leads to one state only.
    pub closed spec fn searched<B: BestCandidate<Item, Impl>>(&self, needle: Item, user_data: Item::UserData, c: B) -> B {
        self.walk(0, needle, user_data, c)
    }

    /// The collector after a search of the subtree at position `k` from
    /// collector `c`, where each offer leads to one state only.
    spec fn walk<B: BestCandidate<Item, Impl>>(
        &self,
        k: int,
        needle: Item,
        user_data: Item::UserData,
        c: B,
    ) -> B
        decreases self.ends@[k] - k,
    {
        let nodes = self.nodes@;
        let ends = self.ends@;
        if 0 <= k < nodes.len() && shape_ok(nodes, ends, k) && ends[k] - k > 0 {
            let nd = nodes[k];
            let d = needle.spec_distance(&self.items@[nd.idx as int], &user_data);
            let c1 = choose|c1: B| c.step(d, nd.idx, c1);
            let near = nd.near as int;
            let far = nd.far as int;
            if val(d) < val(nd.radius) {
                let c2 = if nd.near != NO_NODE && ends[near] - near >= 0 {
                    self.walk(near, needle, user_data, c1)
                } else {
                    c1
                };
                if nd.far != NO_NODE && ends[far] - far >= 0 && val(d) + c2.bound() >= val(nd.radius) {
                    self.walk(far, needle, user_data, c2)
                } else {
                    c2
                }
            } else {
                let c2 = if nd.far != NO_NODE && ends[far] - far >= 0 {
                    self.walk(far, needle, user_data, c1)
                } else {
                    c1
                };
                if nd.near != NO_NODE && ends[near] - near >= 0 && val(nd.radius) + c2.bound() >= val(d) {
                    self.walk(near, needle, user_data, c2)
                } else {
                    c2
                }
            }
        } else {
            c
        }
    }

    /// Walks the subtree at position `k`, nearer side first, and skips a
    /// side only where the triangle inequality shows that nothing in it is
    /// within the collector's bound. Returns the candidates offered so far.
    fn search_node<B: BestCandidate<Item, Impl>>(
        &self,
        k: usize,
        needle: &Item,
        best_candidate: &mut B,
        user_data: &Item::UserData,
        Ghost(start): Ghost<B>,
        Ghost(seen0): Ghost<Map<int, int>>,
    ) -> (seen1: Ghost<Map<int, int>>)
        requires
            self.wf(),
            k < self.nodes@.len(),
            old(best_candidate).tracks(start, seen0),
            forall|m: int|
                k <= m < self.ends@[k as int] ==> !seen0.contains_key(#[trigger] self.nodes@[m].idx as int),
        ensures
            final(best_candidate).tracks(start, seen1@),
            final(best_candidate).bound() <= old(best_candidate).bound(),
            seen1@.contains_key(self.nodes@[k as int].idx as int),
            forall|i: int| #[trigger] seen0.contains_key(i) ==> seen1@.contains_key(i) && seen1@[i] == seen0[i],
            forall|i: int|
                #[trigger] seen1@.contains_key(i) && !seen0.contains_key(i) ==> self.in_block(k as int, i)
                    && 0 <= i < self.items@.len()
                    && seen1@[i] == dist::<Item, Impl>(*needle, self.items@[i], *user_data),
            self.built_for(*user_data) && triangle_on(*needle, self.items@, *user_data) ==> forall|m: int|
                k <= m < self.ends@[k as int] && !seen1@.contains_key(#[trigger] self.nodes@[m].idx as int)
                    ==> dist::<Item, Impl>(*needle, self.items@[self.nodes@[m].idx as int], *user_data)
                    > final(best_candidate).bound(),
            steps_uniquely::<Item, Impl, B>() ==> *final(best_candidate) == self.walk(
                k as int,
                *needle,
                *user_data,
                *old(best_candidate),
            ),
        decreases self.ends@[k as int] - k,
    {
        let ghost nodes = self.nodes@;
        let ghost ends = self.ends@;
        let ghost kk = k as int;
        let ghost e = ends[kk];
        let ghost good = self.built_for(*user_data) && triangle_on(*needle, self.items@, *user_data);
        proof {
            self.lemma_split(kk);
            assert(shape_ok(nodes, ends, kk));
        }
        let ghost c0 = *best_candidate;
        let node = &self.nodes[k];
        let vp = &self.items[node.idx];
        let distance = needle.distance(vp, user_data);
        best_candidate.consider(vp, distance, node.idx, user_data);
        let ghost c1 = *best_candidate;
        proof {
            if steps_uniquely::<Item, Impl, B>() {
                let w = choose|w: B| c0.step(distance, node.idx, w);
                assert(c0.step(distance, node.idx, w));
                assert(w == c1);
            }
        }
        let ghost idk = node.idx as int;
        let ghost seen = seen0.insert(idk, val(distance));
        proof {
            assert(!seen0.contains_key(idk));
            assert(nodes[kk].idx as int == idk);
            assert(self.in_block(kk, idk));
            assert forall|m: int| kk < m < e implies !seen.contains_key(#[trigger] nodes[m].idx as int) by {
                assert(nodes[m].idx != nodes[kk].idx);
            }
        }
        if distance.is_less(&node.radius) {
            let ghost b0 = best_candidate.bound();
            let ghost s1 = seen;
            if node.near != NO_NODE {
                let Ghost(s) = self.search_node(node.near, needle, best_candidate, user_data, Ghost(start), Ghost(seen));
                proof {
                    s1 = s;
                    assert forall|m: int| #[trigger] in_far(nodes, ends, kk, m) implies !s1.contains_key(nodes[m].idx as int) by {
                        let i = nodes[m].idx as int;
                        if s1.contains_key(i) {
                            assert(!seen.contains_key(i));
                            assert(self.in_block(nodes[kk].near as int, i));
                            let w = choose|w: int| nodes[kk].near <= w < ends[nodes[kk].near as int] && #[trigger] nodes[w].idx as int == i;
                            assert(in_near(nodes, ends, kk, w));
                        }
                    }
                }
            }
            let ghost b1 = best_candidate.bound();
            let ghost c2 = *best_candidate;
            let ghost s2 = s1;
            if node.far != NO_NODE {
                let b = best_candidate.distance();
                if distance.sum_reaches(&b, &node.radius) {
                    let Ghost(s) = self.search_node(node.far, needle, best_candidate, user_data, Ghost(start), Ghost(s1));
                    proof {
                        s2 = s;
                    }
                } else {
                    proof {
                        if good {
                            assert forall|m: int| #[trigger] in_far(nodes, ends, kk, m) implies dist::<Item, Impl>(*needle, self.items@[nodes[m].idx as int], *user_data) > b1 by {
                                self.lemma_prune_far(kk, m, *needle, *user_data, b1);
                            }
                        }
                    }
                }
            }
            proof {
                self.lemma_search_done(kk, *needle, *user_data, seen0, seen, s1, s2, b1, best_candidate.bound(), true, false);
                if steps_uniquely::<Item, Impl, B>() {
                    assert(c2 == if node.near != NO_NODE { self.walk(node.near as int, *needle, *user_data, c1) } else { c1 });
                    assert(*best_candidate == self.walk(kk, *needle, *user_data, c0));
                }
            }
            Ghost(s2)
        } else {
            let ghost s1 = seen;
            if node.far != NO_NODE {
                let Ghost(s) = self.search_node(node.far, needle, best_candidate, user_data, Ghost(start), Ghost(seen));
                proof {
                    s1 = s;
                    assert forall|m: int| #[trigger] in_near(nodes, ends, kk, m) implies !s1.contains_key(nodes[m].idx as int) by {
                        let i = nodes[m].idx as int;
                        if s1.contains_key(i) {
                            assert(!seen.contains_key(i));
                            assert(self.in_block(nodes[kk].far as int, i));
                            let w = choose|w: int| nodes[kk].far <= w < ends[nodes[kk].far as int] && #[trigger] nodes[w].idx as int == i;
                            assert(in_far(nodes, ends, kk, w));
                        }
                    }
                }
            }
            let ghost b1 = best_candidate.bound();
            let ghost c2 = *best_candidate;
            let ghost s2 = s1;
            if node.near != NO_NODE {
                let b = best_candidate.distance();
                if node.radius.sum_reaches(&b, &distance) {
                    let Ghost(s) = self.search_node(node.near, needle, best_candidate, user_data, Ghost(start), Ghost(s1));
                    proof {
                        s2 = s;
                    }
                } else {
                    proof {
                        if good {
                            assert forall|m: int| #[trigger] in_near(nodes, ends, kk, m) implies dist::<Item, Impl>(*needle, self.items@[nodes[m].idx as int], *user_data) > b1 by {
                                self.lemma_prune_near(kk, m, *needle, *user_data, b1);
                            }
                        }
                    }
                }
            }
            proof {
                self.lemma_search_done(kk, *needle, *user_data, seen0, seen, s1, s2, b1, best_candidate.bound(), false, true);
                if steps_uniquely::<Item, Impl, B>() {
                    assert(c2 == if node.far != NO_NODE { self.walk(node.far as int, *needle, *user_data, c1) } else { c1 });
                    assert(*best_candidate == self.walk(kk, *needle, *user_data, c0));
                }
            }
            Ghost(s2)
        }
    }

    /// Searches for `needle` under `user_data` are exact: the tree holds a
    /// single item, or it was built under `user_data` and the distance obeys
    /// the triangle inequality between the needle and any two items.
    pub open spec fn exact_for(&self, needle: Item, user_data: Item::UserData) -> bool {
        self.points().len() == 1 || (self.built_for(user_data) && triangle_on(needle, self.points(), user_data))
    }

    /// Builds the arena over clones of `items`.
    fn create_root_node(items: &[Item], user_data: &Item::UserData) -> (r: (
        Vec<Node<Item, Impl>>,
        Vec<Item>,
        Ghost<Map<int, int>>,
    ))
        requires
            items@.len() >= 1,
        ensures
            r.1@.len() == items@.len(),
            forall|i: int| 0 <= i < items@.len() ==> cloned(items@[i], #[trigger] r.1@[i]),
            r.0@.len() == items@.len(),
            r.0@.len() <= usize::MAX,
            r.2@.contains_key(0) && r.2@[0] == items@.len(),
            r.0@[0].idx == 0,
            block_ok(
                r.0@,
                r.2@,
                r.1@,
                *user_data,
                Seq::new(items@.len(), |i: int| i as usize),
                0,
                items@.len() as int,
            ),
    {
        let n = items.len();
        let mut pts: Vec<Item> = Vec::new();
        let mut ids: Vec<usize> = Vec::new();
        let mut i: usize = 0;
        while i < n
            invariant
                i <= n,
                n == items@.len(),
                pts@.len() == i,
                ids@ == Seq::new(i as nat, |j: int| j as usize),
                forall|j: int| 0 <= j < i ==> cloned(items@[j], #[trigger] pts@[j]),
            decreases n - i,
        {
            pts.push(items[i].clone());
            ids.push(i);
            i = i + 1;
        }
        let ghost all_ids = ids@;
        proof {
            assert(all_ids =~= Seq::new(n as nat, |j: int| j as usize));
            assert(forall|a: int, b: int| 0 <= a < b < all_ids.len() ==> all_ids[a] != all_ids[b]);
        }
        let mut nodes: Vec<Node<Item, Impl>> = Vec::new();
        let (_root, ends) = create_node(ids, &mut nodes, &pts, user_data);
        proof {
            assert(all_ids[0] == 0);
        }
        (nodes, pts, ends)
    }
}



impl<Item: MetricSpace<Impl> + Clone, Impl, Ownership> Tree<Item, Impl, Ownership> {
    /// Runs a search with the given collector and returns its result.
    ///
    /// Where the search is exact (see `exact_for`), the result is a right
    /// answer for the collector over the distances from `needle` to every
    /// item.
    pub fn find_nearest_custom<ReturnBy: BestCandidate<Item, Impl>>(
        &self,
        needle: &Item,
        user_data: &Item::UserData,
        best_candidate: ReturnBy,
    ) -> (r: ReturnBy::Output)
        requires
            best_candidate.tracks(best_candidate, Map::empty()),
        ensures
            self.exact_for(*needle, *user_data) ==> best_candidate.answers(
                distances_from(*needle, self.points(), *user_data),
                r,
            ),
            steps_uniquely::<Item, Impl, ReturnBy>() ==> self.searched(*needle, *user_data, best_candidate).produces(r),
            best_candidate.settles(r),
    {
        proof {
            use_type_invariant(self);
        }
        let ghost start = best_candidate;
        let mut best_candidate = best_candidate;
        let Ghost(seen) = self.search_node(
            self.root,
            needle,
            &mut best_candidate,
            user_data,
            Ghost(start),
            Ghost(Map::empty()),
        );
        proof {
            let n = self.nodes@.len();
            let all = distances_from(*needle, self.items@, *user_data);
            if self.exact_for(*needle, *user_data) {
                lemma_int_range(0, n as int);
                assert(all.dom() =~= set_int_range(0, n as int));
                assert forall|i: int| #[trigger] all.contains_key(i) implies 0 <= all[i]
                    <= top::<Item::Distance>() by {
                    lemma_in_range(needle.spec_distance(&self.items@[i], user_data));
                }
                assert forall|i: int| #[trigger] all.contains_key(i) && !seen.contains_key(i) implies all[i]
                    > best_candidate.bound() by {
                    assert(placed(self.nodes@, n as int, i));
                    let m = choose|m: int| 0 <= m < n && #[trigger] self.nodes@[m].idx as int == i;
                    assert(!seen.contains_key(self.nodes@[m].idx as int));
                    if n == 1 {
                        assert(self.nodes@[0].idx < 1);
                        assert(m == 0);
                    }
                }
                assert(covers(seen, all, best_candidate.bound(), top::<Item::Distance>()));
            }
        }
        best_candidate.result(user_data)
    }

    /// What a nearest-one search for `needle` under `user_data` returns.
    pub closed spec fn nearest_of(&self, needle: Item, user_data: Item::UserData) -> (usize, Item::Distance) {
        self.searched(needle, user_data, ReturnByIndex::<Item, Impl>::initial()).kept()
    }

    /// A nearest-one search keeps its start state, or an item of the subtree
    /// at its exact distance from the needle.
    proof fn lemma_walk_keeps_offered(
        &self,
        k: int,
        needle: Item,
        user_data: Item::UserData,
        c: ReturnByIndex<Item, Impl>,
    )
        requires
            self.wf(),
            0 <= k < self.nodes@.len(),
        ensures
            ({
                let w = self.walk(k, needle, user_data, c);
                w == c || exists|m: int|
                    k <= m < self.ends@[k] && w.idx == #[trigger] self.nodes@[m].idx && w.distance
                        == needle.spec_distance(&self.items@[self.nodes@[m].idx as int], &user_data)
            }),
        decreases self.ends@[k] - k,
    {
        ReturnByIndex::<Item, Impl>::lemma_steps_uniquely();
        self.lemma_split(k);
        assert(shape_ok(self.nodes@, self.ends@, k));
        let nd = self.nodes@[k];
        let d = needle.spec_distance(&self.items@[nd.idx as int], &user_data);
        let e = if val(d) < val(c.distance) {
            ReturnByIndex { distance: d, idx: nd.idx }
        } else {
            c
        };
        assert(c.step(d, nd.idx, e));
        let c1 = choose|c1: ReturnByIndex<Item, Impl>| c.step(d, nd.idx, c1);
        assert(c1 == e);
        let near = nd.near as int;
        let far = nd.far as int;
        if val(d) < val(nd.radius) {
            let c2 = if nd.near != NO_NODE {
                self.walk(near, needle, user_data, c1)
            } else {
                c1
            };
            if nd.near != NO_NODE {
                self.lemma_walk_keeps_offered(near, needle, user_data, c1);
            }
            if nd.far != NO_NODE {
                self.lemma_walk_keeps_offered(far, needle, user_data, c2);
            }
        } else {
            let c2 = if nd.far != NO_NODE {
                self.walk(far, needle, user_data, c1)
            } else {
                c1
            };
            if nd.far != NO_NODE {
                self.lemma_walk_keeps_offered(far, needle, user_data, c1);
            }
            if nd.near != NO_NODE {
                self.lemma_walk_keeps_offered(near, needle, user_data, c2);
            }
        }
    }

    /// The nearest item to `needle`: its original index and its distance,
    /// with `user_data` handed to the distance.
    pub fn find_nearest_with_user_data(&self, needle: &Item, user_data: &Item::UserData) -> (r: (
        usize,
        Item::Distance,
    ))
        ensures
            self.exact_for(*needle, *user_data) ==> is_nearest(
                distances_from(*needle, self.points(), *user_data),
                r.0 as int,
                val(r.1),
            ),
            r == self.nearest_of(*needle, *user_data),
            r.0 < self.points().len(),
            r == ReturnByIndex::<Item, Impl>::initial().kept() || r.1 == needle.spec_distance(
                &self.points()[r.0 as int],
                user_data,
            ),
    {
        proof {
            use_type_invariant(self);
        }
        let start = ReturnByIndex::new();
        let r = self.find_nearest_custom(needle, user_data, start);
        proof {
            ReturnByIndex::<Item, Impl>::lemma_steps_uniquely();
            let all = distances_from(*needle, self.items@, *user_data);
            assert(all.contains_key(0));
            lemma_in_range(needle.spec_distance(&self.items@[0], user_data));
            lemma_in_range(r.1);
            self.lemma_walk_keeps_offered(0, *needle, *user_data, ReturnByIndex::<Item, Impl>::initial());
        }
        r
    }
}

impl<Item: MetricSpace<Impl> + Clone, Impl> Tree<Item, Impl, Owned<Item::UserData>> {
    /// Builds a tree over clones of `items` that keeps `user_data` and hands
    /// it to every distance computation. `items` must not be empty.
    pub fn new_with_user_data_owned(items: &[Item], user_data: Item::UserData) -> (r: Self)
        requires
            items@.len() >= 1,
        ensures
            r.points().len() == items@.len(),
            forall|i: int| 0 <= i < items@.len() ==> cloned(items@[i], #[trigger] r.points()[i]),
            r.context() == user_data,
            r.built_for(user_data),
    {
        let (nodes, pts, ends) = Self::create_root_node(items, &user_data);
        proof {
            lemma_arena(nodes@, ends@, pts@, user_data);
        }
        Tree { nodes, items: pts, root: 0, user_data: Owned(user_data), ends }
    }

    /// The context data the tree keeps.
    pub closed spec fn context(&self) -> Item::UserData {
        self.user_data.0
    }

    /// The nearest item to `needle`: its original index and its distance,
    /// under the context data the tree keeps.
    pub fn find_nearest(&self, needle: &Item) -> (r: (usize, Item::Distance))
        ensures
            self.exact_for(*needle, self.context()) ==> is_nearest(
                distances_from(*needle, self.points(), self.context()),
                r.0 as int,
                val(r.1),
            ),
            r == self.nearest_of(*needle, self.context()),
            r.0 < self.points().len(),
            r == ReturnByIndex::<Item, Impl>::initial().kept() || r.1 == needle.spec_distance(
                &self.points()[r.0 as int],
                &self.context(),
            ),
    {
        self.find_nearest_with_user_data(needle, &self.user_data.0)
    }
}

impl<Item: MetricSpace<Impl, UserData = ()> + Clone, Impl> Tree<Item, Impl, Owned<()>> {
    /// Builds a tree over clones of `items`, for items that need no context
    /// data. `items` must not be empty.
    pub fn new(items: &[Item]) -> (r: Self)
        requires
            items@.len() >= 1,
        ensures
            r.points().len() == items@.len(),
            forall|i: int| 0 <= i < items@.len() ==> cloned(items@[i], #[trigger] r.points()[i]),
            r.built_for(()),
    {
        Self::new_with_user_data_owned(items, ())
    }
}

impl<Item: MetricSpace<Impl> + Clone, Impl> Tree<Item, Impl, ()> {
    /// Builds a tree over clones of `items` under `user_data`, which the
    /// caller keeps and passes to every query. `items` must not be empty.
    pub fn new_with_user_data_ref(items: &[Item], user_data: &Item::UserData) -> (r: Self)
        requires
            items@.len() >= 1,
        ensures
            r.points().len() == items@.len(),
            forall|i: int| 0 <= i < items@.len() ==> cloned(items@[i], #[trigger] r.points()[i]),
            r.built_for(*user_data),
    {
        let (nodes, pts, ends) = Self::create_root_node(items, user_data);
        proof {
            lemma_arena(nodes@, ends@, pts@, *user_data);
        }
        Tree { nodes, items: pts, root: 0, user_data: (), ends }
    }

    /// The nearest item to `needle`: its original index and its distance,
    /// with `user_data` handed to the distance.
    pub fn find_nearest(&self, needle: &Item, user_data: &Item::UserData) -> (r: (usize, Item::Distance))
        ensures
            self.exact_for(*needle, *user_data) ==> is_nearest(
                distances_from(*needle, self.points(), *user_data),
                r.0 as int,
                val(r.1),
            ),
            r == self.nearest_of(*needle, *user_data),
            r.0 < self.points().len(),
            r == ReturnByIndex::<Item, Impl>::initial().kept() || r.1 == needle.spec_distance(
                &self.points()[r.0 as int],
                user_data,
            ),
    {
        self.find_nearest_with_user_data(needle, user_data)
    }
}

} // verus!
