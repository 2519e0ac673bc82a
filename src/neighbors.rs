//! The two nearest neighbors of a query point, as a pair of options.
//!
//! Squared distances are `u64` order keys, as in [`crate::neighborhood`].
use vstd::prelude::*;
use crate::neighborhood::{self as hood, GetNeighborhood, NeighborDist, is_neighborhood_of, measured};

verus! {

/// A point and its squared distance to some other point.
#[derive(PartialEq, Debug)]
pub struct PointDist<T>(pub T, pub u64);

impl<T> PointDist<T> {
    /// The point.
    pub fn coord(&self) -> (r: &T)
        ensures
            *r == self.0,
    {
        &self.0
    }

    /// The squared distance to the other point.
    pub fn dist(&self) -> (r: u64)
        ensures
            r == self.1,
    {
        self.1
    }
}

/// The two nearest neighbors when they exist: both, only the first, or none.
#[derive(PartialEq, Debug)]
pub struct Neighborhood<T>(pub Option<PointDist<T>>, pub Option<PointDist<T>>);

/// The same candidate and distance as a [`NeighborDist`].
pub open spec fn as_neighbor<T>(p: PointDist<T>) -> NeighborDist<T> {
    NeighborDist(p.0, p.1)
}

/// The same neighbors as a [`hood::Neighborhood`]; a second neighbor without
/// a first has no counterpart.
pub open spec fn as_hood<T>(n: Neighborhood<T>) -> Option<hood::Neighborhood<T>> {
    match (n.0, n.1) {
        (Some(a), Some(b)) => Some(hood::Neighborhood::Two(as_neighbor(a), as_neighbor(b))),
        (Some(a), None) => Some(hood::Neighborhood::One(as_neighbor(a))),
        (None, None) => Some(hood::Neighborhood::Empty),
        (None, Some(_)) => None,
    }
}

fn from_hood<T>(n: hood::Neighborhood<T>) -> (r: Neighborhood<T>)
    ensures
        as_hood(r) == Some(n),
{
    match n {
        hood::Neighborhood::Two(a, b) => Neighborhood(
            Some(PointDist(a.0, a.1)),
            Some(PointDist(b.0, b.1)),
        ),
        hood::Neighborhood::One(a) => Neighborhood(Some(PointDist(a.0, a.1)), None),
        hood::Neighborhood::Empty => Neighborhood(None, None),
    }
}

/// Three points as candidates, in order.
pub open spec fn triple<T>(d1: PointDist<T>, d2: PointDist<T>, d3: PointDist<T>) -> Seq<NeighborDist<T>> {
    seq![as_neighbor(d1), as_neighbor(d2), as_neighbor(d3)]
}

/// The two nearest of three points, nearest first; ties go to the earlier one.
pub fn smallest<T>(d1: PointDist<T>, d2: PointDist<T>, d3: PointDist<T>) -> (r: (
    PointDist<T>,
    PointDist<T>,
))
    ensures
        exists|i: int, j: int|
            #[trigger] hood::is_runner_up(triple(d1, d2, d3), i, j) && hood::is_nearest(
                triple(d1, d2, d3),
                i,
            ) && as_neighbor(r.0) == triple(d1, d2, d3)[i] && as_neighbor(r.1) == triple(
                d1,
                d2,
                d3,
            )[j],
{
    let ghost t = triple(d1, d2, d3);
    let n1 = NeighborDist(d1.0, d1.1);
    let n2 = NeighborDist(d2.0, d2.1);
    let n3 = NeighborDist(d3.0, d3.1);
    assert(seq![n1, n2, n3] == t);
    let (a, b) = hood::smallest(n1, n2, n3);
    proof {
        let (i, j) = choose|i: int, j: int|
            hood::is_nearest(t, i) && hood::is_runner_up(t, i, j) && a == t[i] && b == t[j];
        assert(hood::is_runner_up(t, i, j));
    }
    (PointDist(a.0, a.1), PointDist(b.0, b.1))
}

/// A set of points whose two nearest neighbors of a point can be found.
pub trait GetNeighbors<P, T, F: Fn(&P, &T) -> u64>: Sized {
    /// The points, in the order in which they are examined.
    spec fn points(&self) -> Seq<T>;

    /// The two nearest points to `point`, nearest first, under the squared
    /// distance `dist`; ties go to the point examined first.
    fn get_neighbors(self, point: &P, dist: F) -> (r: Neighborhood<T>)
        requires
            forall|c: T| call_requires(dist, (point, &c)),
        ensures
            exists|s: Seq<NeighborDist<T>>|
                measured(point, dist, self.points(), s) && is_neighborhood_of(s, as_hood(r)->0)
                    && as_hood(r) is Some,
    ;
}

impl<P, T, F: Fn(&P, &T) -> u64> GetNeighbors<P, T, F> for Vec<T> {
    open spec fn points(&self) -> Seq<T> {
        self@
    }

    fn get_neighbors(self, point: &P, dist: F) -> (r: Neighborhood<T>) {
        let ghost cs = self@;
        let n = self.get_neighborhood(point, dist);
        let r = from_hood(n);
        proof {
            let s = choose|s: Seq<NeighborDist<T>>| measured(point, dist, cs, s) && is_neighborhood_of(s, n);
            assert(measured(point, dist, cs, s) && is_neighborhood_of(s, as_hood(r)->0));
        }
        r
    }
}

} // verus!
