//! The capability every indexed item type provides: a distance to another item.
use vstd::prelude::*;

use crate::distance::{val, DistanceValue};

verus! {

/// Items kept in a tree must be comparable through this trait.
///
/// The type parameter only tells apart several implementations for one item
/// type, which lets a crate implement the trait for a type it does not own.
pub trait MetricSpace<UserImplementationType = ()>: Sized {
    /// Context handed to every distance computation; `()` where the items
    /// already hold all that is needed.
    type UserData;

    /// The type of distances between items.
    type Distance: DistanceValue;

    /// The distance from `self` to `other`. An implementation that leaves
    /// this unspecified cannot prove `distance`, so verified implementations
    /// define it.
    closed spec fn spec_distance(&self, other: &Self, user_data: &Self::UserData) -> Self::Distance {
        arbitrary()
    }

    /// Distance between two items. Searches are exact only where it obeys the
    /// triangle inequality, so it must not be a squared distance.
    fn distance(&self, other: &Self, user_data: &Self::UserData) -> (r: Self::Distance)
        ensures
            r == self.spec_distance(other, user_data),
    ;
}

} // verus!

verus! {

/// The triangle inequality, in the two forms a search uses, for a query `q`
/// and two items `x`, `y`.
pub open spec fn triangle_ok<Item: MetricSpace<Impl>, Impl>(
    q: Item,
    x: Item,
    y: Item,
    user_data: Item::UserData,
) -> bool {
    let qx = val(q.spec_distance(&x, &user_data));
    let qy = val(q.spec_distance(&y, &user_data));
    let xy = val(x.spec_distance(&y, &user_data));
    &&& xy <= qx + qy
    &&& qx <= qy + xy
}

/// The triangle inequality holds between the query `q` and any two of `pts`.
pub open spec fn triangle_on<Item: MetricSpace<Impl>, Impl>(
    q: Item,
    pts: Seq<Item>,
    user_data: Item::UserData,
) -> bool {
    forall|a: int, b: int|
        0 <= a < pts.len() && 0 <= b < pts.len() ==> #[trigger] triangle_ok::<Item, Impl>(
            q,
            pts[a],
            pts[b],
            user_data,
        )
}

/// Distance from `q` to each item of `pts`, by position.
pub open spec fn distances_from<Item: MetricSpace<Impl>, Impl>(
    q: Item,
    pts: Seq<Item>,
    user_data: Item::UserData,
) -> Map<int, int> {
    Map::new(|i: int| 0 <= i < pts.len(), |i: int| val(q.spec_distance(&pts[i], &user_data)))
}

} // verus!
