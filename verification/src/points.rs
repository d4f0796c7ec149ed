//! Candidate points and the bounded vector that chunk payloads store them in.
//!
//! A [`GenPoint`] is a generated world point with an exclusion radius; its
//! priority (for the reduction step) is its radius, ties broken by position.
//! Chunks keep their points in an `arrayvec::ArrayVec` with a small fixed
//! capacity, accessed through trusted wrappers whose contracts speak of the
//! abstract contents sequence [`point_vec_view`].

use vstd::prelude::*;

use crate::vec2::Point2d;

verus! {

/// A generated point: a world position to be kept free of other points
/// within its exclusion radius.
#[derive(Clone, Copy, PartialEq, Eq, Structural, Debug)]
pub struct GenPoint {
    pub position: Point2d,
    pub radius: i64,
}

/// Point-like values that do not want to be close to each other. Of two
/// overlapping values the one with the higher priority is kept; at equal
/// priority the higher x position wins, then the higher y position.
pub trait Reducible: Sized {
    spec fn spec_position(&self) -> Point2d;

    spec fn spec_radius(&self) -> int;

    spec fn spec_priority(&self) -> int;

    /// Center of the circle to keep free of other values.
    fn position(&self) -> (p: Point2d)
        ensures
            p == self.spec_position(),
    ;

    /// The radius around the value to be kept free.
    fn radius(&self) -> (r: i64)
        ensures
            r as int == self.spec_radius(),
    ;

    /// The priority that decides the winner of an overlap.
    fn priority(&self) -> (r: i64)
        ensures
            r as int == self.spec_priority(),
    ;
}

impl Reducible for GenPoint {
    open spec fn spec_position(&self) -> Point2d {
        self.position
    }

    open spec fn spec_radius(&self) -> int {
        self.radius as int
    }

    /// The priority of a generated point is its radius.
    open spec fn spec_priority(&self) -> int {
        self.radius as int
    }

    fn position(&self) -> (p: Point2d) {
        self.position
    }

    fn radius(&self) -> (r: i64) {
        self.radius
    }

    fn priority(&self) -> (r: i64) {
        self.radius
    }
}

#[verifier::external_type_specification]
#[verifier::external_body]
#[verifier::reject_recursive_types(T)]
pub struct ExArrayVec<T, const CAP: usize>(arrayvec::ArrayVec<T, CAP>);

/// The sequence of points an `arrayvec::ArrayVec<GenPoint, 7>` holds, in
/// insertion order.
pub uninterp spec fn point_vec_view(v: arrayvec::ArrayVec<GenPoint, 7>) -> Seq<GenPoint>;

/// Relies on `arrayvec::ArrayVec::new`: a freshly created vector is empty.
#[verifier::external_body]
pub fn point_vec_new() -> (r: arrayvec::ArrayVec<GenPoint, 7>)
    ensures
        point_vec_view(r) == Seq::<GenPoint>::empty(),
{
    arrayvec::ArrayVec::new()
}

/// Relies on `arrayvec::ArrayVec::push`: appends the element at the end.
/// `push` panics on a full vector, so a call requires spare capacity.
#[verifier::external_body]
pub fn point_vec_push(v: &mut arrayvec::ArrayVec<GenPoint, 7>, p: GenPoint)
    requires
        point_vec_view(*old(v)).len() < 7,
    ensures
        point_vec_view(*final(v)) == point_vec_view(*old(v)).push(p),
{
    v.push(p)
}

/// Relies on `arrayvec::ArrayVec::len`: the number of elements held.
#[verifier::external_body]
pub fn point_vec_len(v: &arrayvec::ArrayVec<GenPoint, 7>) -> (r: usize)
    ensures
        r == point_vec_view(*v).len(),
{
    v.len()
}

/// Relies on `arrayvec::ArrayVec::as_slice`: the `k`-th stored element.
#[verifier::external_body]
pub fn point_vec_get(v: &arrayvec::ArrayVec<GenPoint, 7>, k: usize) -> (r: GenPoint)
    requires
        k < point_vec_view(*v).len(),
    ensures
        r == point_vec_view(*v)[k as int],
{
    v.as_slice()[k]
}

} // verus!
