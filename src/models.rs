//! The two kinds of cluster: flat (two dimensions) and convex (three).

use crate::aggregation::{grew, Aggregation, GrowthError, PARAM_LIMIT, POINT_LIMIT};
use crate::geometry::{norm2, root};
use crate::table::table;
use crate::geometry::{bounded, Vec3d};
use crate::random::StdSource;
use vstd::prelude::*;

verus! {

/// A point of the plane; each coordinate is a count of ticks.
#[derive(Clone, Copy, Debug, PartialEq, Eq, Structural)]
pub struct Vec2d {
    pub x: i64,
    pub y: i64,
}

impl Vec2d {
    pub fn new(x: i64, y: i64) -> (r: Vec2d)
        ensures
            r.x == x && r.y == y,
    {
        Vec2d { x, y }
    }

    /// The same point in space, on the plane `z == 0`.
    pub fn to_3d(self) -> (r: Vec3d)
        ensures
            r@ == (self.x as int, self.y as int, 0int),
    {
        Vec3d { x: self.x, y: self.y, z: 0 }
    }
}

/// A cluster growing in the plane.
pub struct FlatAggregation {
    pub cluster: Aggregation<StdSource>,
}

/// A cluster growing in space.
pub struct ConvexAggregation {
    pub cluster: Aggregation<StdSource>,
}

impl FlatAggregation {
    pub open spec fn wf(&self) -> bool {
        self.cluster.wf() && self.cluster.dims() == 2
    }

    pub fn new() -> (r: FlatAggregation)
        ensures
            r.wf(),
            r.cluster.points().len() == 0,
            r.cluster.parents().len() == 0,
            r.cluster.join_attempts().len() == 0,
            r.cluster.bounding_radius() == 0,
            r.cluster.has_defaults(),
    {
        FlatAggregation { cluster: Aggregation::flat() }
    }

    pub fn set_particle_spacing(&mut self, a: u64)
        requires
            old(self).wf(),
            a <= PARAM_LIMIT,
        ensures
            final(self).wf(),
            final(self).cluster.same_cluster(&old(self).cluster),
            final(self).cluster.particle_spacing() == a,
            final(self).cluster.dims() == old(self).cluster.dims(),
            final(self).cluster.attraction_distance() == old(self).cluster.attraction_distance(),
            final(self).cluster.min_move_distance() == old(self).cluster.min_move_distance(),
            final(self).cluster.stubbornness() == old(self).cluster.stubbornness(),
            final(self).cluster.stickiness() == old(self).cluster.stickiness(),
    {
        self.cluster.set_particle_spacing(a);
    }

    pub fn set_attraction_distance(&mut self, a: u64)
        requires
            old(self).wf(),
            a <= PARAM_LIMIT,
        ensures
            final(self).wf(),
            final(self).cluster.same_cluster(&old(self).cluster),
            final(self).cluster.attraction_distance() == a,
            final(self).cluster.dims() == old(self).cluster.dims(),
            final(self).cluster.particle_spacing() == old(self).cluster.particle_spacing(),
            final(self).cluster.min_move_distance() == old(self).cluster.min_move_distance(),
            final(self).cluster.stubbornness() == old(self).cluster.stubbornness(),
            final(self).cluster.stickiness() == old(self).cluster.stickiness(),
    {
        self.cluster.set_attraction_distance(a);
    }

    pub fn set_min_move_distance(&mut self, a: u64)
        requires
            old(self).wf(),
            a <= PARAM_LIMIT,
        ensures
            final(self).wf(),
            final(self).cluster.same_cluster(&old(self).cluster),
            final(self).cluster.min_move_distance() == a,
            final(self).cluster.dims() == old(self).cluster.dims(),
            final(self).cluster.particle_spacing() == old(self).cluster.particle_spacing(),
            final(self).cluster.attraction_distance() == old(self).cluster.attraction_distance(),
            final(self).cluster.stubbornness() == old(self).cluster.stubbornness(),
            final(self).cluster.stickiness() == old(self).cluster.stickiness(),
    {
        self.cluster.set_min_move_distance(a);
    }

    pub fn set_stubbornness(&mut self, a: usize)
        requires
            old(self).wf(),
        ensures
            final(self).wf(),
            final(self).cluster.same_cluster(&old(self).cluster),
            final(self).cluster.stubbornness() == a,
            final(self).cluster.dims() == old(self).cluster.dims(),
            final(self).cluster.particle_spacing() == old(self).cluster.particle_spacing(),
            final(self).cluster.attraction_distance() == old(self).cluster.attraction_distance(),
            final(self).cluster.min_move_distance() == old(self).cluster.min_move_distance(),
            final(self).cluster.stickiness() == old(self).cluster.stickiness(),
    {
        self.cluster.set_stubbornness(a);
    }

    pub fn set_stickness(&mut self, a: u64)
        requires
            old(self).wf(),
        ensures
            final(self).wf(),
            final(self).cluster.same_cluster(&old(self).cluster),
            final(self).cluster.stickiness() == a,
            final(self).cluster.dims() == old(self).cluster.dims(),
            final(self).cluster.particle_spacing() == old(self).cluster.particle_spacing(),
            final(self).cluster.attraction_distance() == old(self).cluster.attraction_distance(),
            final(self).cluster.min_move_distance() == old(self).cluster.min_move_distance(),
            final(self).cluster.stubbornness() == old(self).cluster.stubbornness(),
    {
        self.cluster.set_stickness(a);
    }

    /// Anchors `p` with the label `parent`.
    pub fn add(&mut self, p: Vec2d, parent: usize)
        requires
            old(self).wf(),
            bounded((p.x as int, p.y as int, 0int), POINT_LIMIT as int),
            old(self).cluster.points().len() < usize::MAX,
        ensures
            final(self).wf(),
            final(self).cluster.same_settings(&old(self).cluster),
            final(self).cluster.points() == old(self).cluster.points().push(p.to_3d_spec()),
            final(self).cluster.parents() == old(self).cluster.parents().push(parent),
            final(self).cluster.join_attempts() == old(self).cluster.join_attempts().push(0),
            final(self).cluster.bounding_radius() == vstd::math::max(
                old(self).cluster.bounding_radius(),
                root(norm2(p.to_3d_spec()@)) + old(self).cluster.attraction_distance(),
            ),
    {
        self.cluster.add(p.to_3d(), parent);
    }

    /// Grows the cluster by one particle.
    pub fn add_particle(&mut self) -> (r: Result<usize, GrowthError>)
        requires
            old(self).wf(),
            old(self).cluster.points().len() > 0,
            old(self).cluster.points().len() < usize::MAX,
        ensures
            final(self).wf(),
            grew(old(self).cluster, final(self).cluster, r),
            final(self).cluster.draws() <= old(self).cluster.draws() + u64::MAX,
            r == Err::<usize, GrowthError>(GrowthError::Exhausted) ==> final(self).cluster.draws()
                == old(self).cluster.draws() + u64::MAX,
    {
        self.cluster.add_particle()
    }

    /// The table of the cluster's points; see `Aggregation::to_csv`.
    pub fn to_csv(&self) -> (r: Vec<u8>)
        requires
            self.wf(),
        ensures
            r@ == table(self.cluster.records_view()),
    {
        self.cluster.to_csv()
    }
}

impl Vec2d {
    pub open spec fn to_3d_spec(self) -> Vec3d {
        Vec3d { x: self.x, y: self.y, z: 0 }
    }
}

impl ConvexAggregation {
    pub open spec fn wf(&self) -> bool {
        self.cluster.wf() && self.cluster.dims() == 3
    }

    pub fn new() -> (r: ConvexAggregation)
        ensures
            r.wf(),
            r.cluster.points().len() == 0,
            r.cluster.parents().len() == 0,
            r.cluster.join_attempts().len() == 0,
            r.cluster.bounding_radius() == 0,
            r.cluster.has_defaults(),
    {
        ConvexAggregation { cluster: Aggregation::convex() }
    }

    pub fn set_particle_spacing(&mut self, a: u64)
        requires
            old(self).wf(),
            a <= PARAM_LIMIT,
        ensures
            final(self).wf(),
            final(self).cluster.same_cluster(&old(self).cluster),
            final(self).cluster.particle_spacing() == a,
            final(self).cluster.dims() == old(self).cluster.dims(),
            final(self).cluster.attraction_distance() == old(self).cluster.attraction_distance(),
            final(self).cluster.min_move_distance() == old(self).cluster.min_move_distance(),
            final(self).cluster.stubbornness() == old(self).cluster.stubbornness(),
            final(self).cluster.stickiness() == old(self).cluster.stickiness(),
    {
        self.cluster.set_particle_spacing(a);
    }

    pub fn set_attraction_distance(&mut self, a: u64)
        requires
            old(self).wf(),
            a <= PARAM_LIMIT,
        ensures
            final(self).wf(),
            final(self).cluster.same_cluster(&old(self).cluster),
            final(self).cluster.attraction_distance() == a,
            final(self).cluster.dims() == old(self).cluster.dims(),
            final(self).cluster.particle_spacing() == old(self).cluster.particle_spacing(),
            final(self).cluster.min_move_distance() == old(self).cluster.min_move_distance(),
            final(self).cluster.stubbornness() == old(self).cluster.stubbornness(),
            final(self).cluster.stickiness() == old(self).cluster.stickiness(),
    {
        self.cluster.set_attraction_distance(a);
    }

    pub fn set_min_move_distance(&mut self, a: u64)
        requires
            old(self).wf(),
            a <= PARAM_LIMIT,
        ensures
            final(self).wf(),
            final(self).cluster.same_cluster(&old(self).cluster),
            final(self).cluster.min_move_distance() == a,
            final(self).cluster.dims() == old(self).cluster.dims(),
            final(self).cluster.particle_spacing() == old(self).cluster.particle_spacing(),
            final(self).cluster.attraction_distance() == old(self).cluster.attraction_distance(),
            final(self).cluster.stubbornness() == old(self).cluster.stubbornness(),
            final(self).cluster.stickiness() == old(self).cluster.stickiness(),
    {
        self.cluster.set_min_move_distance(a);
    }

    pub fn set_stubbornness(&mut self, a: usize)
        requires
            old(self).wf(),
        ensures
            final(self).wf(),
            final(self).cluster.same_cluster(&old(self).cluster),
            final(self).cluster.stubbornness() == a,
            final(self).cluster.dims() == old(self).cluster.dims(),
            final(self).cluster.particle_spacing() == old(self).cluster.particle_spacing(),
            final(self).cluster.attraction_distance() == old(self).cluster.attraction_distance(),
            final(self).cluster.min_move_distance() == old(self).cluster.min_move_distance(),
            final(self).cluster.stickiness() == old(self).cluster.stickiness(),
    {
        self.cluster.set_stubbornness(a);
    }

    pub fn set_stickness(&mut self, a: u64)
        requires
            old(self).wf(),
        ensures
            final(self).wf(),
            final(self).cluster.same_cluster(&old(self).cluster),
            final(self).cluster.stickiness() == a,
            final(self).cluster.dims() == old(self).cluster.dims(),
            final(self).cluster.particle_spacing() == old(self).cluster.particle_spacing(),
            final(self).cluster.attraction_distance() == old(self).cluster.attraction_distance(),
            final(self).cluster.min_move_distance() == old(self).cluster.min_move_distance(),
            final(self).cluster.stubbornness() == old(self).cluster.stubbornness(),
    {
        self.cluster.set_stickness(a);
    }

    /// Anchors `p` with the label `parent`.
    pub fn add(&mut self, p: Vec3d, parent: usize)
        requires
            old(self).wf(),
            bounded(p@, POINT_LIMIT as int),
            old(self).cluster.points().len() < usize::MAX,
        ensures
            final(self).wf(),
            final(self).cluster.same_settings(&old(self).cluster),
            final(self).cluster.points() == old(self).cluster.points().push(p),
            final(self).cluster.parents() == old(self).cluster.parents().push(parent),
            final(self).cluster.join_attempts() == old(self).cluster.join_attempts().push(0),
            final(self).cluster.bounding_radius() == vstd::math::max(
                old(self).cluster.bounding_radius(),
                root(norm2(p@)) + old(self).cluster.attraction_distance(),
            ),
    {
        self.cluster.add(p, parent);
    }

    /// Grows the cluster by one particle.
    pub fn add_particle(&mut self) -> (r: Result<usize, GrowthError>)
        requires
            old(self).wf(),
            old(self).cluster.points().len() > 0,
            old(self).cluster.points().len() < usize::MAX,
        ensures
            final(self).wf(),
            grew(old(self).cluster, final(self).cluster, r),
            final(self).cluster.draws() <= old(self).cluster.draws() + u64::MAX,
            r == Err::<usize, GrowthError>(GrowthError::Exhausted) ==> final(self).cluster.draws()
                == old(self).cluster.draws() + u64::MAX,
    {
        self.cluster.add_particle()
    }

    /// The table of the cluster's points; see `Aggregation::to_csv`.
    pub fn to_csv(&self) -> (r: Vec<u8>)
        requires
            self.wf(),
        ensures
            r@ == table(self.cluster.records_view()),
    {
        self.cluster.to_csv()
    }
}

/// Entry points for the two kinds of cluster.
pub struct Builder {}

impl Builder {
    pub fn flat() -> (r: FlatAggregation)
        ensures
            r.wf(),
            r.cluster.points().len() == 0,
            r.cluster.parents().len() == 0,
            r.cluster.join_attempts().len() == 0,
            r.cluster.bounding_radius() == 0,
            r.cluster.has_defaults(),
    {
        FlatAggregation::new()
    }

    pub fn convex() -> (r: ConvexAggregation)
        ensures
            r.wf(),
            r.cluster.points().len() == 0,
            r.cluster.parents().len() == 0,
            r.cluster.join_attempts().len() == 0,
            r.cluster.bounding_radius() == 0,
            r.cluster.has_defaults(),
    {
        ConvexAggregation::new()
    }
}

} // verus!
