//! Keys of a metric space, and the integer types in which distances are kept.

use num_traits::AsPrimitive;
use vstd::prelude::*;

verus! {

/// A point of a metric space. The distance is symmetric and vanishes between a
/// point and itself.
///
/// Verified code proves the two laws of its points. Code that is not verified writes
/// `dist` as it writes `distance` and leaves the bodies of the laws empty: the laws
/// are then its word.
pub trait MetricPoint: Sized {
    /// The distance between two points.
    spec fn dist(&self, rhs: &Self) -> u64;

    /// Computes the distance between two points.
    fn distance(&self, rhs: &Self) -> (d: u64)
        ensures
            d == self.dist(rhs),
    ;

    /// The distance is the same in both directions.
    proof fn lemma_dist_symmetric(&self, rhs: &Self)
        ensures
            self.dist(rhs) == rhs.dist(self),
    ;

    /// The distance from a point to itself is zero.
    proof fn lemma_dist_self(&self)
        ensures
            self.dist(self) == 0,
    ;
}

/// An unsigned integer type in which distances are stored and compared.
///
/// `narrowed` is what the `as` conversion from `u64` gives, and `rank` embeds the
/// type's order into `u64`.
pub trait Distance: Copy + Sized {
    /// The distance `d` as it is kept in this type.
    spec fn narrowed(d: u64) -> Self;

    /// The place of a kept distance in the order of `u64`.
    spec fn rank(&self) -> u64;

    /// Converts a distance to this type, as `as` does.
    fn narrow(d: u64) -> (r: Self)
        ensures
            r == Self::narrowed(d),
    ;

    /// Converts a kept distance back, keeping the order.
    fn widen(&self) -> (r: u64)
        ensures
            r == self.rank(),
    ;

    /// The distance zero is kept as the least distance.
    proof fn lemma_zero()
        ensures
            Self::narrowed(0).rank() == 0,
    ;
}

/// The distance between two keys as it is kept in `D`.
pub open spec fn stored<K: MetricPoint, D: Distance>(query: K, key: K) -> D {
    D::narrowed(query.dist(&key))
}

/// The kept distance of every key to `query`.
pub open spec fn dists_to<K: MetricPoint, D: Distance>(keys: Seq<K>, query: K) -> Seq<D> {
    Seq::new(keys.len(), |i: int| stored::<K, D>(query, keys[i]))
}

/// Kept distances by their place in the order of `u64`.
pub open spec fn ranks_of<D: Distance>(dists: Seq<D>) -> Seq<u64> {
    Seq::new(dists.len(), |i: int| dists[i].rank())
}

/// The kept distance of every key to `query`, by its place in the order of `u64`.
pub open spec fn ranks_to<K: MetricPoint, D: Distance>(keys: Seq<K>, query: K) -> Seq<u64> {
    Seq::new(keys.len(), |i: int| stored::<K, D>(query, keys[i]).rank())
}

/// `AsPrimitive::<u64>::as_` on a `u64`: the value itself.
#[verifier::external_body]
fn as_u64(d: u64) -> (r: u64)
    ensures
        r == d,
{
    AsPrimitive::<u64>::as_(d)
}

/// `AsPrimitive::<u32>::as_` on a `u64`: the low 32 bits.
#[verifier::external_body]
fn as_u32(d: u64) -> (r: u32)
    ensures
        r == d as u32,
{
    AsPrimitive::<u32>::as_(d)
}

/// `AsPrimitive::<u16>::as_` on a `u64`: the low 16 bits.
#[verifier::external_body]
fn as_u16(d: u64) -> (r: u16)
    ensures
        r == d as u16,
{
    AsPrimitive::<u16>::as_(d)
}

/// `AsPrimitive::<u8>::as_` on a `u64`: the low 8 bits.
#[verifier::external_body]
fn as_u8(d: u64) -> (r: u8)
    ensures
        r == d as u8,
{
    AsPrimitive::<u8>::as_(d)
}

impl Distance for u64 {
    open spec fn narrowed(d: u64) -> u64 {
        d
    }

    open spec fn rank(&self) -> u64 {
        *self
    }

    fn narrow(d: u64) -> (r: u64) {
        as_u64(d)
    }

    fn widen(&self) -> (r: u64) {
        *self
    }

    proof fn lemma_zero() {
    }
}

impl Distance for u32 {
    open spec fn narrowed(d: u64) -> u32 {
        d as u32
    }

    open spec fn rank(&self) -> u64 {
        *self as u64
    }

    fn narrow(d: u64) -> (r: u32) {
        as_u32(d)
    }

    fn widen(&self) -> (r: u64) {
        *self as u64
    }

    proof fn lemma_zero() {
    }
}

impl Distance for u16 {
    open spec fn narrowed(d: u64) -> u16 {
        d as u16
    }

    open spec fn rank(&self) -> u64 {
        *self as u64
    }

    fn narrow(d: u64) -> (r: u16) {
        as_u16(d)
    }

    fn widen(&self) -> (r: u64) {
        *self as u64
    }

    proof fn lemma_zero() {
    }
}

impl Distance for u8 {
    open spec fn narrowed(d: u64) -> u8 {
        d as u8
    }

    open spec fn rank(&self) -> u64 {
        *self as u64
    }

    fn narrow(d: u64) -> (r: u8) {
        as_u8(d)
    }

    fn widen(&self) -> (r: u64) {
        *self as u64
    }

    proof fn lemma_zero() {
    }
}

} // verus!
