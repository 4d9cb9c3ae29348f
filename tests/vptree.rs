use vpsearch::{
    BestCandidate, DistanceSpec, DistanceValue, KNearest, MetricSpace, Owned, ReturnByIndex, Tree, WithinRadius,
};

struct MyImpl;

impl MetricSpace<MyImpl> for i32 {
    type UserData = ();
    type Distance = u32;

    fn distance(&self, other: &Self, _user_data: &()) -> u32 {
        (self - other).abs() as u32
    }
}

/// A floating-point distance, supplied by the caller.
#[derive(Copy, Clone, Debug, PartialEq)]
struct FDist(f32);

impl DistanceSpec for FDist {}

impl DistanceValue for FDist {
    fn max_value() -> Self {
        FDist(f32::MAX)
    }

    fn is_less(&self, other: &Self) -> bool {
        self.0 < other.0
    }

    fn sum_reaches(&self, other: &Self, limit: &Self) -> bool {
        self.0 + other.0 >= limit.0
    }
}

#[derive(Copy, Clone)]
struct Foo(f32);

impl MetricSpace for Foo {
    type Distance = FDist;
    type UserData = ();

    fn distance(&self, other: &Self, _: &Self::UserData) -> Self::Distance {
        FDist((self.0 - other.0).abs())
    }
}

#[derive(Copy, Clone)]
struct Bar(i32);

impl MetricSpace for Bar {
    type UserData = usize;
    type Distance = u32;

    fn distance(&self, other: &Self, user_data: &Self::UserData) -> Self::Distance {
        assert_eq!(12345, *user_data);
        (self.0 - other.0).abs() as u32
    }
}

/// A point in the plane; distances are Euclidean, scaled by a million and
/// rounded down.
#[derive(Copy, Clone, Debug)]
struct Pt(i64, i64);

impl MetricSpace for Pt {
    type UserData = ();
    type Distance = u64;

    fn distance(&self, other: &Self, _user_data: &()) -> u64 {
        let dx = (self.0 - other.0) as f64;
        let dy = (self.1 - other.1) as f64;
        ((dx * dx + dy * dy).sqrt() * 1_000_000.0) as u64
    }
}

/// A point under the Manhattan distance, which is an exact metric.
#[derive(Copy, Clone, Debug)]
struct Grid(i64, i64);

impl MetricSpace for Grid {
    type UserData = ();
    type Distance = u64;

    fn distance(&self, other: &Self, _user_data: &()) -> u64 {
        ((self.0 - other.0).abs() + (self.1 - other.1).abs()) as u64
    }
}

fn three_points() -> Vec<Pt> {
    vec![Pt(2, 3), Pt(0, 1), Pt(4, 5)]
}

fn sorted(mut v: Vec<usize>) -> Vec<usize> {
    v.sort();
    v
}

struct Lcg(u64);

impl Lcg {
    fn next(&mut self, modulus: u64) -> i64 {
        self.0 = self.0.wrapping_mul(6364136223846793005).wrapping_add(1442695040888963407);
        ((self.0 >> 33) % modulus) as i64
    }
}

fn grid_points(seed: u64, n: usize) -> Vec<Grid> {
    let mut rng = Lcg(seed);
    (0..n).map(|_| Grid(rng.next(200) - 100, rng.next(200) - 100)).collect()
}

fn brute_distances(items: &[Grid], q: &Grid) -> Vec<u64> {
    items.iter().map(|p| q.distance(p, &())).collect()
}

#[test]
fn test_impl_orphan() {
    let foos = [10, 20, 30, 40];
    let vp = Tree::new(&foos);
    assert_eq!((2, 30 - 26), vp.find_nearest(&26));
}

#[test]
fn test_without_user_data() {
    let foos = [Foo(1.0), Foo(1.5), Foo(2.0)];
    let vp = Tree::new(&foos);

    assert_eq!((2, FDist(98.0)), vp.find_nearest(&Foo(100.0)));
    assert_eq!((0, FDist(101.0)), vp.find_nearest(&Foo(-100.0)));
    assert_eq!((1, FDist(0.0)), vp.find_nearest(&Foo(1.5)));
    assert_eq!((1, FDist(0.125)), vp.find_nearest(&Foo(1.5 - 0.125)));
    assert_eq!((2, FDist(0.125)), vp.find_nearest(&Foo(2.0 - 0.125)));
}

#[test]
fn test_with_user_data() {
    let bars = [Bar(10), Bar(15), Bar(20)];
    let magic = 12345;
    let vp = Tree::new_with_user_data_owned(&bars, magic);

    assert_eq!((1, 0), vp.find_nearest(&Bar(15)));
    assert_eq!((1, 1), vp.find_nearest_with_user_data(&Bar(16), &magic));

    let vp = Tree::new_with_user_data_ref(&bars, &magic);
    assert_eq!((0, 1), vp.find_nearest(&Bar(9), &magic));
    assert_eq!((0, 1), vp.find_nearest_with_user_data(&Bar(9), &magic));
}

#[test]
fn euclidean_nearest_tie_goes_to_first_visited() {
    let vp = Tree::new(&three_points());
    let (index, distance) = vp.find_nearest(&Pt(1, 2));
    // (2,3) and (0,1) are both sqrt(2) away; the root, visited first, wins.
    assert_eq!(distance, 1_414_213);
    assert_eq!(index, 0);
    assert_eq!(vp.find_nearest(&Pt(1, 2)), (index, distance));
}

#[test]
fn euclidean_k_nearest() {
    let vp = Tree::new(&three_points());
    let two = vp.find_nearest_custom(&Pt(1, 2), &(), KNearest::new(2));
    assert_eq!(sorted(two), vec![0, 1]);
    let ten = vp.find_nearest_custom(&Pt(1, 2), &(), KNearest::new(10));
    assert_eq!(sorted(ten), vec![0, 1, 2]);
    let one = vp.find_nearest_custom(&Pt(1, 2), &(), KNearest::new(1));
    assert_eq!(one.len(), 1);
    assert!(one[0] == 0 || one[0] == 1);
}

#[test]
fn euclidean_radius() {
    let vp = Tree::new(&three_points());
    let none = vp.find_nearest_custom(&Pt(1, 2), &(), WithinRadius::new(0));
    assert!(none.is_empty());
    let all = vp.find_nearest_custom(&Pt(1, 2), &(), WithinRadius::new(100_000_000));
    assert_eq!(sorted(all), vec![0, 1, 2]);
    // exclusive bound: sqrt(2) itself is not within sqrt(2)
    let edge = vp.find_nearest_custom(&Pt(1, 2), &(), WithinRadius::new(1_414_213));
    assert!(edge.is_empty());
    let near = vp.find_nearest_custom(&Pt(1, 2), &(), WithinRadius::new(1_414_214));
    assert_eq!(sorted(near), vec![0, 1]);
}

#[test]
fn one_dimensional_with_context() {
    let bars = [Bar(10), Bar(15), Bar(20)];
    let vp = Tree::new_with_user_data_owned(&bars, 12345);
    assert_eq!(vp.find_nearest(&Bar(15)), (1, 0));
    assert_eq!(vp.find_nearest(&Bar(16)), (1, 1));
    let vp = Tree::new_with_user_data_ref(&bars, &12345);
    assert_eq!(vp.find_nearest(&Bar(9), &12345), (0, 1));
    assert_eq!(vp.find_nearest(&Bar(21), &12345), (2, 1));
}

#[test]
fn single_item_tree() {
    let vp = Tree::new(&[Grid(3, 4)]);
    assert_eq!(vp.find_nearest(&Grid(0, 0)), (0, 7));
    assert_eq!(vp.find_nearest_custom(&Grid(0, 0), &(), KNearest::new(1)), vec![0]);
    assert_eq!(vp.find_nearest_custom(&Grid(0, 0), &(), KNearest::new(5)), vec![0]);
    assert!(vp.find_nearest_custom(&Grid(0, 0), &(), KNearest::new(0)).is_empty());
}

#[test]
fn k_zero_is_empty() {
    let items = grid_points(7, 50);
    let vp = Tree::new(&items);
    for q in grid_points(8, 10) {
        assert!(vp.find_nearest_custom(&q, &(), KNearest::new(0)).is_empty());
    }
}

#[test]
fn nearest_matches_brute_force() {
    for seed in 0..20u64 {
        let items = grid_points(seed, 1 + (seed as usize * 7) % 60);
        let vp = Tree::new(&items);
        for q in grid_points(seed + 1000, 25) {
            let all = brute_distances(&items, &q);
            let best = *all.iter().min().unwrap();
            let (index, distance) = vp.find_nearest(&q);
            assert_eq!(distance, best);
            assert_eq!(all[index], best);
        }
    }
}

#[test]
fn k_nearest_matches_brute_force() {
    for seed in 0..12u64 {
        let items = grid_points(seed + 50, 40);
        let vp = Tree::new(&items);
        for q in grid_points(seed + 2000, 10) {
            let all = brute_distances(&items, &q);
            for k in [0usize, 1, 3, 10, 40, 55] {
                let got = vp.find_nearest_custom(&q, &(), KNearest::new(k));
                assert_eq!(got.len(), k.min(items.len()));
                let mut unique = got.clone();
                unique.sort();
                unique.dedup();
                assert_eq!(unique.len(), got.len());
                for w in got.windows(2) {
                    assert!(all[w[0]] <= all[w[1]]);
                }
                if let Some(worst_kept) = got.iter().map(|&i| all[i]).max() {
                    for (i, d) in all.iter().enumerate() {
                        if !got.contains(&i) {
                            assert!(worst_kept <= *d);
                        }
                    }
                }
            }
        }
    }
}

#[test]
fn radius_matches_brute_force() {
    for seed in 0..12u64 {
        let items = grid_points(seed + 300, 45);
        let vp = Tree::new(&items);
        for q in grid_points(seed + 3000, 10) {
            let all = brute_distances(&items, &q);
            for r in [0u64, 1, 10, 40, 90, 500] {
                let got = sorted(vp.find_nearest_custom(&q, &(), WithinRadius::new(r)));
                let want: Vec<usize> = (0..items.len()).filter(|&i| all[i] < r).collect();
                assert_eq!(got, want);
            }
        }
    }
}

#[test]
fn repeated_queries_agree() {
    let items = grid_points(99, 64);
    let vp = Tree::new(&items);
    for q in grid_points(100, 20) {
        assert_eq!(vp.find_nearest(&q), vp.find_nearest(&q));
        assert_eq!(
            vp.find_nearest_custom(&q, &(), KNearest::new(5)),
            vp.find_nearest_custom(&q, &(), KNearest::new(5))
        );
        assert_eq!(
            vp.find_nearest_custom(&q, &(), WithinRadius::new(30)),
            vp.find_nearest_custom(&q, &(), WithinRadius::new(30))
        );
    }
}

#[test]
fn equal_items_all_found() {
    let items = vec![Grid(1, 1); 9];
    let vp = Tree::new(&items);
    let (index, distance) = vp.find_nearest(&Grid(1, 1));
    assert_eq!(distance, 0);
    assert!(index < 9);
    assert_eq!(sorted(vp.find_nearest_custom(&Grid(1, 1), &(), WithinRadius::new(1))), (0..9).collect::<Vec<_>>());
    assert_eq!(vp.find_nearest_custom(&Grid(5, 5), &(), KNearest::new(4)).len(), 4);
}

#[test]
fn nearest_collector_by_hand() {
    let vp = Tree::new(&three_points());
    let got = vp.find_nearest_custom(&Pt(4, 4), &(), ReturnByIndex::new());
    assert_eq!(got, (2, 1_000_000));
}

#[test]
fn largest_distances() {
    assert_eq!(<u16 as DistanceValue>::max_value(), u16::MAX);
    assert_eq!(<u32 as DistanceValue>::max_value(), u32::MAX);
    assert_eq!(<u64 as DistanceValue>::max_value(), u64::MAX);
    assert_eq!(<usize as DistanceValue>::max_value(), usize::MAX);
}

#[test]
fn sums_do_not_overflow() {
    assert!(u32::MAX.sum_reaches(&u32::MAX, &u32::MAX));
    assert!(!1u32.sum_reaches(&1, &3));
    assert!(2u32.sum_reaches(&1, &3));
    assert!(u64::MAX.sum_reaches(&1, &u64::MAX));
    assert!(!(u64::MAX - 2).sum_reaches(&1, &u64::MAX));
    assert!(usize::MAX.sum_reaches(&usize::MAX, &5));
    assert!(!3usize.sum_reaches(&1, &5));
    assert!(u16::MAX.sum_reaches(&u16::MAX, &u16::MAX));
    assert!(5u32.is_less(&6));
    assert!(!6u32.is_less(&6));
}

#[test]
fn owned_type_is_public() {
    let vp: Tree<Grid, (), Owned<()>> = Tree::new(&[Grid(0, 0), Grid(5, 0)]);
    assert_eq!(vp.find_nearest(&Grid(4, 0)), (1, 1));
}

#[test]
fn collectors_start_empty() {
    let c: KNearest<Grid, ()> = KNearest::new(3);
    let out = BestCandidate::<Grid, ()>::result(c, &());
    assert!(out.is_empty());
    let r: WithinRadius<Grid, ()> = WithinRadius::new(10);
    assert_eq!(BestCandidate::<Grid, ()>::distance(&r), 10);
}

/// A caller-defined collector that records every item the search visits.
struct Visits {
    seen: Vec<usize>,
}

impl BestCandidate<Grid, ()> for Visits {
    type Output = Vec<usize>;

    fn consider(&mut self, _item: &Grid, _distance: u64, candidate_index: usize, _user_data: &()) {
        self.seen.push(candidate_index);
    }

    fn distance(&self) -> u64 {
        u64::MAX
    }

    fn result(self, _user_data: &()) -> Vec<usize> {
        self.seen
    }
}

#[test]
fn custom_collector_sees_every_item_once() {
    let items = grid_points(5, 33);
    let vp = Tree::new(&items);
    let visited = vp.find_nearest_custom(&Grid(0, 0), &(), Visits { seen: Vec::new() });
    assert_eq!(sorted(visited.clone()), (0..33).collect::<Vec<_>>());
    assert_eq!(visited[0], 0);
}

#[test]
fn large_tree_matches_brute_force() {
    let items = grid_points(4242, 20_000);
    let vp = Tree::new(&items);
    for q in grid_points(77, 30) {
        let all = brute_distances(&items, &q);
        let best = *all.iter().min().unwrap();
        let (index, distance) = vp.find_nearest(&q);
        assert_eq!(distance, best);
        assert_eq!(all[index], best);
    }
}

#[test]
fn nearest_collector_takes_only_strictly_nearer_offers() {
    let mut c: ReturnByIndex<Grid, ()> = ReturnByIndex::new();
    assert_eq!((c.idx, c.distance), (0, u64::MAX));
    BestCandidate::<Grid, ()>::consider(&mut c, &Grid(0, 0), u64::MAX, 5, &());
    assert_eq!(BestCandidate::<Grid, ()>::result(c, &()), (0, u64::MAX));

    let mut c: ReturnByIndex<Grid, ()> = ReturnByIndex::new();
    BestCandidate::<Grid, ()>::consider(&mut c, &Grid(0, 0), 7, 3, &());
    BestCandidate::<Grid, ()>::consider(&mut c, &Grid(0, 0), 7, 4, &());
    BestCandidate::<Grid, ()>::consider(&mut c, &Grid(0, 0), 9, 1, &());
    assert_eq!(BestCandidate::<Grid, ()>::distance(&c), 7);
    assert_eq!(BestCandidate::<Grid, ()>::result(c, &()), (3, 7));
}
