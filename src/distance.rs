//! Numeric distance values: ordered, bounded above, and summable without
//! overflow for the pruning tests.
use vstd::prelude::*;

verus! {

/// What a distance stands for in the proofs. The proofs see a distance as
/// the integer `val(d)`, which lies between zero and `top::<D>()`, the value
/// of the largest distance.
pub trait DistanceSpec: Copy + Sized {
    /// The integer this distance stands for.
    closed spec fn spec_value(&self) -> int {
        arbitrary()
    }

    /// The integer the largest distance stands for.
    closed spec fn spec_max() -> int {
        arbitrary()
    }

    /// The largest distance.
    closed spec fn spec_largest() -> Self {
        arbitrary()
    }
}

/// A distance between two items: ordered, bounded, and summable.
pub trait DistanceValue: DistanceSpec {
    /// The largest distance, used as "infinitely far".
    fn max_value() -> (r: Self)
        ensures
            r == Self::spec_largest(),
            val(r) == top::<Self>(),
    ;

    /// `self < other`.
    fn is_less(&self, other: &Self) -> (r: bool)
        ensures
            r == (val(*self) < val(*other)),
    ;

    /// `self + other >= limit`, computed without overflow.
    fn sum_reaches(&self, other: &Self, limit: &Self) -> (r: bool)
        ensures
            r == (val(*self) + val(*other) >= val(*limit)),
    ;
}

/// The value of the largest distance of `D`, at least zero.
pub open spec fn top<D: DistanceSpec>() -> int {
    if D::spec_max() < 0 {
        0
    } else {
        D::spec_max()
    }
}

/// The value of a distance, within `0..=top::<D>()`.
pub open spec fn val<D: DistanceSpec>(d: D) -> int {
    if d.spec_value() < 0 {
        0
    } else if d.spec_value() > top::<D>() {
        top::<D>()
    } else {
        d.spec_value()
    }
}

/// Every distance lies between zero and the largest one.
pub proof fn lemma_in_range<D: DistanceSpec>(d: D)
    ensures
        0 <= val(d) <= top::<D>(),
{
}

/// Relies on num_traits::Bounded::max_value for u16: the largest u16.
#[verifier::external_body]
fn bounded_max_u16() -> (r: u16)
    ensures
        r == u16::MAX,
{
    <u16 as num_traits::Bounded>::max_value()
}

/// Relies on num_traits::Bounded::max_value for u32: the largest u32.
#[verifier::external_body]
fn bounded_max_u32() -> (r: u32)
    ensures
        r == u32::MAX,
{
    <u32 as num_traits::Bounded>::max_value()
}

/// Relies on num_traits::Bounded::max_value for u64: the largest u64.
#[verifier::external_body]
fn bounded_max_u64() -> (r: u64)
    ensures
        r == u64::MAX,
{
    <u64 as num_traits::Bounded>::max_value()
}

/// Relies on num_traits::Bounded::max_value for usize: the largest usize.
#[verifier::external_body]
fn bounded_max_usize() -> (r: usize)
    ensures
        r == usize::MAX,
{
    <usize as num_traits::Bounded>::max_value()
}

impl DistanceSpec for u16 {
    open spec fn spec_value(&self) -> int {
        *self as int
    }

    open spec fn spec_max() -> int {
        u16::MAX as int
    }

    open spec fn spec_largest() -> u16 {
        u16::MAX
    }
}

impl DistanceValue for u16 {
    fn max_value() -> (r: Self) {
        bounded_max_u16()
    }

    fn is_less(&self, other: &Self) -> (r: bool) {
        *self < *other
    }

    fn sum_reaches(&self, other: &Self, limit: &Self) -> (r: bool) {
        (*self as u32) + (*other as u32) >= (*limit as u32)
    }
}

impl DistanceSpec for u32 {
    open spec fn spec_value(&self) -> int {
        *self as int
    }

    open spec fn spec_max() -> int {
        u32::MAX as int
    }

    open spec fn spec_largest() -> u32 {
        u32::MAX
    }
}

impl DistanceValue for u32 {
    fn max_value() -> (r: Self) {
        bounded_max_u32()
    }

    fn is_less(&self, other: &Self) -> (r: bool) {
        *self < *other
    }

    fn sum_reaches(&self, other: &Self, limit: &Self) -> (r: bool) {
        (*self as u64) + (*other as u64) >= (*limit as u64)
    }
}

impl DistanceSpec for u64 {
    open spec fn spec_value(&self) -> int {
        *self as int
    }

    open spec fn spec_max() -> int {
        u64::MAX as int
    }

    open spec fn spec_largest() -> u64 {
        u64::MAX
    }
}

impl DistanceValue for u64 {
    fn max_value() -> (r: Self) {
        bounded_max_u64()
    }

    fn is_less(&self, other: &Self) -> (r: bool) {
        *self < *other
    }

    fn sum_reaches(&self, other: &Self, limit: &Self) -> (r: bool) {
        (*self as u128) + (*other as u128) >= (*limit as u128)
    }
}

impl DistanceSpec for usize {
    open spec fn spec_value(&self) -> int {
        *self as int
    }

    open spec fn spec_max() -> int {
        usize::MAX as int
    }

    open spec fn spec_largest() -> usize {
        usize::MAX
    }
}

impl DistanceValue for usize {
    fn max_value() -> (r: Self) {
        bounded_max_usize()
    }

    fn is_less(&self, other: &Self) -> (r: bool) {
        *self < *other
    }

    fn sum_reaches(&self, other: &Self, limit: &Self) -> (r: bool) {
        if *self >= *limit {
            true
        } else {
            *other >= *limit - *self
        }
    }
}

} // verus!
