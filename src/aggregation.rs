//! The aggregation engine: the cluster of anchored points, its spatial
//! index, and the random walk that grows it.

use crate::geometry::{
    bounded, diff, dist2, sum, lemma_coords_within_length, lemma_length_bound, lemma_toward_distance, lerp,
    norm2, root, toward, Triple, Vec3d, PRECISION, UNIT,
};
use crate::index::{
    all_bounded, entry_bounded, entry_dist2, tree_entries, tree_insert, tree_nearest, tree_new,
    TaggedTree,
};
use crate::random::{RandomSource, StdSource};
use crate::table::{encode_table, table};
use vstd::multiset::Multiset;
use vstd::prelude::*;

verus! {

broadcast use vstd::multiset::group_multiset_properties;

/// Largest coordinate magnitude of an anchored point.
pub const POINT_LIMIT: i64 = 17_179_869_184;

/// Largest value of a distance setting.
pub const PARAM_LIMIT: u64 = 17_179_869_184;

/// Largest bounding radius that points within `POINT_LIMIT` can produce.
pub const RADIUS_LIMIT: i64 = 68_719_476_736;

/// Largest coordinate magnitude of a walker between two steps.
pub const WALK_LIMIT: i64 = 137_438_953_472;

pub const DEFAULT_PARTICLE_SPACING: u64 = 10_000;

pub const DEFAULT_ATTRACTION_DISTANCE: u64 = 30_000;

pub const DEFAULT_MIN_MOVE_DISTANCE: u64 = 10_000;

pub const DEFAULT_STUBBORNNESS: usize = 0;

pub const DEFAULT_STICKINESS: u64 = 10_000;

/// Why a growth call ended without a join.
#[derive(Clone, Copy, Debug, PartialEq, Eq, Structural)]
pub enum GrowthError {
    /// The walk used up its budget of steps and draws.
    Exhausted,
    /// The joining position lies beyond `POINT_LIMIT`.
    OutOfRange,
}

/// The tagged point that the index holds for point `id` at `p`.
pub open spec fn entry_of(p: Vec3d, id: int) -> (i128, i128, i128, usize) {
    (p.x as i128, p.y as i128, p.z as i128, id as usize)
}

/// The index contents that mirror the point sequence `pts`.
pub open spec fn entries_of(pts: Seq<Vec3d>) -> Multiset<(i128, i128, i128, usize)>
    decreases pts.len(),
{
    if pts.len() == 0 {
        Multiset::empty()
    } else {
        entries_of(pts.drop_last()).insert(entry_of(pts.last(), pts.len() - 1))
    }
}

/// A point of a flat cluster lies in the plane `z == 0`.
pub open spec fn in_plane(dims: usize, p: Triple) -> bool {
    dims == 2 ==> p.2 == 0
}

/// `i` is the point nearest to `w` among `pts` (one of them, on a tie).
pub open spec fn is_nearest(pts: Seq<Vec3d>, w: Triple, i: int) -> bool {
    &&& 0 <= i < pts.len()
    &&& forall|j: int| 0 <= j < pts.len() ==> dist2(w, pts[i]@) <= #[trigger] dist2(w, pts[j]@)
}

/// A walker at `w` is in range of point `i`, the point nearest to it.
pub open spec fn captures(pts: Seq<Vec3d>, w: Triple, i: int, attraction: int) -> bool {
    is_nearest(pts, w, i) && root(dist2(w, pts[i]@)) < attraction
}

/// Membership in the mirrored index: exactly one entry per point, tagged
/// with the point's position in the sequence.
proof fn lemma_entries(pts: Seq<Vec3d>)
    requires
        pts.len() <= usize::MAX,
    ensures
        entries_of(pts).len() == pts.len(),
        forall|e: (i128, i128, i128, usize)|
            #[trigger] entries_of(pts).contains(e) <==> (e.3 < pts.len() && e == entry_of(
                pts[e.3 as int],
                e.3 as int,
            )),
    decreases pts.len(),
{
    if pts.len() > 0 {
        let prev = pts.drop_last();
        let x = entry_of(pts.last(), pts.len() - 1);
        lemma_entries(prev);
        assert forall|e: (i128, i128, i128, usize)| #[trigger]
            entries_of(pts).contains(e) <==> (e.3 < pts.len() && e == entry_of(
                pts[e.3 as int],
                e.3 as int,
            )) by {
            assert(entries_of(pts) == entries_of(prev).insert(x));
            assert(entries_of(pts).contains(e) <==> (e == x || entries_of(prev).contains(e)));
            if e.3 < prev.len() {
                assert(prev[e.3 as int] == pts[e.3 as int]);
            }
        }
    }
}

/// Appending a point adds its entry to the mirrored index.
proof fn lemma_entries_push(pts: Seq<Vec3d>, p: Vec3d)
    ensures
        entries_of(pts.push(p)) == entries_of(pts).insert(entry_of(p, pts.len() as int)),
{
    assert(pts.push(p).drop_last() =~= pts);
}

/// The index entries of points within `POINT_LIMIT` lie within its bounds.
proof fn lemma_entries_bounded(pts: Seq<Vec3d>)
    requires
        pts.len() <= usize::MAX,
        forall|i: int| 0 <= i < pts.len() ==> bounded(#[trigger] pts[i]@, POINT_LIMIT as int),
    ensures
        all_bounded(entries_of(pts)),
{
    lemma_entries(pts);
    assert forall|e| #[trigger] entries_of(pts).contains(e) implies entry_bounded(e) by {
        assert(bounded(pts[e.3 as int]@, POINT_LIMIT as int));
    }
}

proof fn lemma_entry_dist(q: Vec3d, i: int, p: Vec3d)
    ensures
        entry_dist2(entry_of(q, i), p.x as int, p.y as int, p.z as int) == dist2(p@, q@),
{
    assert(entry_dist2(entry_of(q, i), p.x as int, p.y as int, p.z as int) == dist2(p@, q@))
        by (nonlinear_arith);
}

/// A flat cluster keeps the first two coordinates of a point and sets the
/// third to zero.
pub open spec fn project(dims: usize, p: Vec3d) -> Vec3d {
    if dims == 2 {
        Vec3d { x: p.x, y: p.y, z: 0 }
    } else {
        p
    }
}

/// A direction for a cluster of `dims` dimensions: a point of the ball of
/// radius `UNIT` other than its centre, in the plane of a flat cluster.
pub open spec fn is_direction(dims: usize, d: Triple) -> bool {
    &&& 0 < norm2(d) < UNIT * UNIT
    &&& bounded(d, UNIT as int)
    &&& in_plane(dims, d)
}

/// A counter after one more contact; it stays at its maximum once there.
pub open spec fn bump(a: usize) -> usize {
    if a < usize::MAX {
        (a + 1) as usize
    } else {
        a
    }
}

/// Whether a contact joins: the point has seen enough contacts, and the
/// fraction drawn does not exceed the stickiness.
pub open spec fn join_decision(attempts: int, stubbornness: int, draw: int, stickiness: int) -> bool {
    attempts >= stubbornness && draw <= stickiness
}

/// The direction a candidate from the cube gives: the candidate itself
/// (its first two coordinates, in a flat cluster) when it lies strictly
/// inside the ball of radius `UNIT` and is not the centre.
pub open spec fn direction_of_spec(dims: usize, c: Vec3d) -> Option<Vec3d> {
    let d = project(dims, c);
    if 0 < norm2(d@) < UNIT * UNIT {
        Some(d)
    } else {
        None
    }
}

/// Keeps or rejects one candidate direction drawn from the cube.
pub fn direction_of(dims: usize, c: Vec3d) -> (r: Option<Vec3d>)
    requires
        dims == 2 || dims == 3,
        bounded(c@, UNIT as int),
    ensures
        r == direction_of_spec(dims, c),
        r matches Some(d) ==> is_direction(dims, d@),
{
    let d = if dims == 2 {
        Vec3d { x: c.x, y: c.y, z: 0 }
    } else {
        c
    };
    let n = d.length_squared();
    if 0 < n && n < (UNIT * UNIT) as u128 {
        Some(d)
    } else {
        None
    }
}

/// The point whose coordinates are those of `t`.
pub open spec fn vec_of(t: Triple) -> Vec3d {
    Vec3d { x: t.0 as i64, y: t.1 as i64, z: t.2 as i64 }
}

/// How many contacts of `log` reached point `i`.
pub open spec fn count_of(log: Seq<(Triple, usize)>, i: int) -> nat
    decreases log.len(),
{
    if log.len() == 0 {
        0
    } else {
        count_of(log.drop_last(), i) + if log.last().1 == i {
            1nat
        } else {
            0nat
        }
    }
}

/// A counter `a` after `k` more contacts; it stays at its maximum once
/// there.
pub open spec fn counted(a: usize, k: nat) -> usize {
    if a + k < usize::MAX {
        (a + k) as usize
    } else {
        usize::MAX
    }
}

/// Every contact of `log` was a walker in range of the point nearest to it
/// among `pts`.
pub open spec fn all_captured(pts: Seq<Vec3d>, log: Seq<(Triple, usize)>, attraction: int) -> bool {
    forall|k: int|
        0 <= k < log.len() ==> captures(pts, (#[trigger] log[k]).0, log[k].1 as int, attraction)
}

/// The contacts `b` logged after those of `a`.
pub open spec fn new_contacts<R: RandomSource>(a: Aggregation<R>, b: Aggregation<R>) -> Seq<
    (Triple, usize),
> {
    b.contacts().subrange(a.contacts().len() as int, b.contacts().len() as int)
}

/// How one step of the walk ends.
#[derive(Clone, Copy, Debug, PartialEq, Eq, Structural)]
pub enum Next {
    /// The walker joined as the point with this identifier.
    Joined(usize),
    /// The walker was to join beyond `POINT_LIMIT`.
    OutOfRange,
    /// The walker goes on from here.
    Walk(Vec3d),
    /// The walker strayed too far and starts again on the bounding sphere.
    Reset,
}

/// One step of the walk: the point found nearest, and how the step ended.
#[derive(Clone, Copy, Debug, PartialEq, Eq, Structural)]
pub struct Step {
    pub parent: usize,
    pub next: Next,
}

/// The outcome of one growth call, from the cluster `a` before it to the
/// cluster `b` after it.
pub open spec fn grew<R: RandomSource>(a: Aggregation<R>, b: Aggregation<R>, r: Result<usize, GrowthError>) -> bool {
    &&& b.same_settings(&a)
    &&& b.bounding_radius() >= a.bounding_radius()
    &&& b.join_attempts().len() == b.points().len()
    &&& forall|i: int|
        0 <= i < a.points().len() ==> #[trigger] b.join_attempts()[i] >= a.join_attempts()[i]
    &&& forall|i: int|
        0 <= i < a.points().len() && #[trigger] b.join_attempts()[i] != a.join_attempts()[i]
            ==> exists|w: Triple| #[trigger] captures(a.points(), w, i, a.attraction_distance())
    &&& a.contacts().len() <= b.contacts().len()
    &&& b.contacts().subrange(0, a.contacts().len() as int) == a.contacts()
    &&& all_captured(a.points(), new_contacts(a, b), a.attraction_distance())
    &&& forall|i: int|
        0 <= i < a.points().len() ==> #[trigger] b.join_attempts()[i] == counted(
            a.join_attempts()[i],
            count_of(new_contacts(a, b), i),
        )
    &&& (a.stubbornness() == 0 && a.stickiness() >= UNIT) ==> match r {
        Ok(id) => b.join_attempts() == a.join_attempts().update(
            b.parents()[id as int] as int,
            bump(a.join_attempts()[b.parents()[id as int] as int]),
        ).push(0),
        Err(GrowthError::Exhausted) => b.join_attempts() == a.join_attempts(),
        Err(GrowthError::OutOfRange) => true,
    }
    &&& match r {
        Ok(id) => {
            let parent = b.parents()[id as int];
            let q = b.points()[id as int];
            &&& id == a.points().len()
            &&& b.points() == a.points().push(q)
            &&& b.parents() == a.parents().push(parent)
            &&& b.join_attempts()[id as int] == 0
            &&& parent < id
            &&& b.join_attempts()[parent as int] >= a.stubbornness()
            &&& exists|d: int|
                0 <= d < UNIT && #[trigger] join_decision(
                    b.join_attempts()[parent as int] as int,
                    a.stubbornness(),
                    d,
                    a.stickiness(),
                )
            &&& exists|w: Triple|
                captures(a.points(), w, parent as int, a.attraction_distance()) && q@
                    == #[trigger] toward(a.points()[parent as int]@, w, a.particle_spacing())
            &&& b.bounding_radius() == vstd::math::max(
                a.bounding_radius(),
                root(norm2(q@)) + a.attraction_distance(),
            )
        },
        Err(e) => {
            &&& b.points() == a.points()
            &&& b.parents() == a.parents()
            &&& b.bounding_radius() == a.bounding_radius()
            &&& e == GrowthError::OutOfRange ==> exists|w: Triple, i: int|
                #![trigger captures(a.points(), w, i, a.attraction_distance())]
                captures(a.points(), w, i, a.attraction_distance()) && !bounded(
                    toward(a.points()[i]@, w, a.particle_spacing()),
                    POINT_LIMIT as int,
                )
        },
    }
}

/// One exported point: its identifier, its parent label, its coordinates.
#[derive(Clone, Copy, Debug, PartialEq, Eq, Structural)]
pub struct Record {
    pub id: usize,
    pub parent: usize,
    pub x: i64,
    pub y: i64,
    pub z: i64,
}

/// The record of point `i` at `p` with label `parent`.
pub open spec fn record_of(i: int, parent: usize, p: Vec3d) -> Record {
    Record { id: i as usize, parent, x: p.x, y: p.y, z: p.z }
}

/// The growing cluster together with the settings of its walk.
pub struct Aggregation<R: RandomSource> {
    dims: usize,
    particle_spacing: u64,
    attraction_distance: u64,
    min_move_distance: u64,
    stubbornness: usize,
    stickiness: u64,
    bounding_radius: i64,
    points: Vec<Vec3d>,
    parents: Vec<usize>,
    join_attempts: Vec<usize>,
    index: TaggedTree,
    rng: R,
    contacts: Ghost<Seq<(Triple, usize)>>,
}

impl<R: RandomSource> Aggregation<R> {
    pub closed spec fn dims(&self) -> usize {
        self.dims
    }

    pub closed spec fn particle_spacing(&self) -> int {
        self.particle_spacing as int
    }

    pub closed spec fn attraction_distance(&self) -> int {
        self.attraction_distance as int
    }

    pub closed spec fn min_move_distance(&self) -> int {
        self.min_move_distance as int
    }

    pub closed spec fn stubbornness(&self) -> int {
        self.stubbornness as int
    }

    /// The probability of a join once stubbornness is met, in ticks of `UNIT`.
    pub closed spec fn stickiness(&self) -> int {
        self.stickiness as int
    }

    pub closed spec fn bounding_radius(&self) -> int {
        self.bounding_radius as int
    }

    /// The anchored points; a point's identifier is its position here.
    pub closed spec fn points(&self) -> Seq<Vec3d> {
        self.points@
    }

    /// The parent label recorded with each point.
    pub closed spec fn parents(&self) -> Seq<usize> {
        self.parents@
    }

    pub closed spec fn join_attempts(&self) -> Seq<usize> {
        self.join_attempts@
    }

    /// Every in-range contact so far: the walker's position and the point
    /// it reached, in order.
    pub closed spec fn contacts(&self) -> Seq<(Triple, usize)> {
        self.contacts@
    }

    /// What the spatial index holds.
    pub closed spec fn indexed(&self) -> Multiset<(i128, i128, i128, usize)> {
        tree_entries(self.index)
    }

    /// The settings that no growth call changes.
    pub open spec fn same_settings(&self, other: &Self) -> bool {
        &&& self.dims() == other.dims()
        &&& self.particle_spacing() == other.particle_spacing()
        &&& self.attraction_distance() == other.attraction_distance()
        &&& self.min_move_distance() == other.min_move_distance()
        &&& self.stubbornness() == other.stubbornness()
        &&& self.stickiness() == other.stickiness()
    }

    pub closed spec fn wf(&self) -> bool {
        &&& self.dims == 2 || self.dims == 3
        &&& self.particle_spacing <= PARAM_LIMIT
        &&& self.attraction_distance <= PARAM_LIMIT
        &&& self.min_move_distance <= PARAM_LIMIT
        &&& 0 <= self.bounding_radius <= RADIUS_LIMIT
        &&& self.points@.len() <= usize::MAX
        &&& self.parents@.len() == self.points@.len()
        &&& self.join_attempts@.len() == self.points@.len()
        &&& forall|i: int|
            0 <= i < self.points@.len() ==> {
                &&& bounded(#[trigger] self.points@[i]@, POINT_LIMIT as int)
                &&& in_plane(self.dims, self.points@[i]@)
            }
        &&& tree_entries(self.index) == entries_of(self.points@)
        &&& self.rng.inv()
    }

    /// Spacing 1, capture radius 3, least step 1, stubbornness 0 and
    /// stickiness 1, in units.
    pub open spec fn has_defaults(&self) -> bool {
        &&& self.particle_spacing() == DEFAULT_PARTICLE_SPACING
        &&& self.attraction_distance() == DEFAULT_ATTRACTION_DISTANCE
        &&& self.min_move_distance() == DEFAULT_MIN_MOVE_DISTANCE
        &&& self.stubbornness() == DEFAULT_STUBBORNNESS
        &&& self.stickiness() == DEFAULT_STICKINESS
    }

    /// An empty cluster of `dims` dimensions with the default settings,
    /// drawing from `rng`.
    pub fn with_source(dims: usize, rng: R) -> (r: Self)
        requires
            dims == 2 || dims == 3,
            rng.inv(),
        ensures
            r.wf(),
            r.dims() == dims,
            r.points().len() == 0,
            r.parents().len() == 0,
            r.join_attempts().len() == 0,
            r.bounding_radius() == 0,
            r.has_defaults(),
            r.draws() == rng.draws(),
    {
        Aggregation {
            dims,
            particle_spacing: DEFAULT_PARTICLE_SPACING,
            attraction_distance: DEFAULT_ATTRACTION_DISTANCE,
            min_move_distance: DEFAULT_MIN_MOVE_DISTANCE,
            stubbornness: DEFAULT_STUBBORNNESS,
            stickiness: DEFAULT_STICKINESS,
            bounding_radius: 0,
            points: Vec::new(),
            parents: Vec::new(),
            join_attempts: Vec::new(),
            index: tree_new(),
            rng,
            contacts: Ghost(Seq::empty()),
        }
    }

    /// The cluster itself (points, labels, counters, radius) is the same.
    pub open spec fn same_cluster(&self, other: &Self) -> bool {
        &&& self.points() == other.points()
        &&& self.parents() == other.parents()
        &&& self.join_attempts() == other.join_attempts()
        &&& self.bounding_radius() == other.bounding_radius()
        &&& self.indexed() == other.indexed()
        &&& self.contacts() == other.contacts()
    }

    pub fn set_particle_spacing(&mut self, a: u64)
        requires
            old(self).wf(),
            a <= PARAM_LIMIT,
        ensures
            final(self).wf(),
            final(self).same_cluster(old(self)),
            final(self).particle_spacing() == a,
            final(self).dims() == old(self).dims(),
            final(self).attraction_distance() == old(self).attraction_distance(),
            final(self).min_move_distance() == old(self).min_move_distance(),
            final(self).stubbornness() == old(self).stubbornness(),
            final(self).stickiness() == old(self).stickiness(),
    {
        self.particle_spacing = a;
    }

    /// Sets the capture radius. Points already placed keep the bounding
    /// radius they gave.
    pub fn set_attraction_distance(&mut self, a: u64)
        requires
            old(self).wf(),
            a <= PARAM_LIMIT,
        ensures
            final(self).wf(),
            final(self).same_cluster(old(self)),
            final(self).attraction_distance() == a,
            final(self).dims() == old(self).dims(),
            final(self).particle_spacing() == old(self).particle_spacing(),
            final(self).min_move_distance() == old(self).min_move_distance(),
            final(self).stubbornness() == old(self).stubbornness(),
            final(self).stickiness() == old(self).stickiness(),
    {
        self.attraction_distance = a;
    }

    pub fn set_min_move_distance(&mut self, a: u64)
        requires
            old(self).wf(),
            a <= PARAM_LIMIT,
        ensures
            final(self).wf(),
            final(self).same_cluster(old(self)),
            final(self).min_move_distance() == a,
            final(self).dims() == old(self).dims(),
            final(self).particle_spacing() == old(self).particle_spacing(),
            final(self).attraction_distance() == old(self).attraction_distance(),
            final(self).stubbornness() == old(self).stubbornness(),
            final(self).stickiness() == old(self).stickiness(),
    {
        self.min_move_distance = a;
    }

    pub fn set_stubbornness(&mut self, a: usize)
        requires
            old(self).wf(),
        ensures
            final(self).wf(),
            final(self).same_cluster(old(self)),
            final(self).stubbornness() == a,
            final(self).dims() == old(self).dims(),
            final(self).particle_spacing() == old(self).particle_spacing(),
            final(self).attraction_distance() == old(self).attraction_distance(),
            final(self).min_move_distance() == old(self).min_move_distance(),
            final(self).stickiness() == old(self).stickiness(),
    {
        self.stubbornness = a;
    }

    /// Sets the join probability, in ticks: `UNIT` and above always join.
    pub fn set_stickness(&mut self, a: u64)
        requires
            old(self).wf(),
        ensures
            final(self).wf(),
            final(self).same_cluster(old(self)),
            final(self).stickiness() == a,
            final(self).dims() == old(self).dims(),
            final(self).particle_spacing() == old(self).particle_spacing(),
            final(self).attraction_distance() == old(self).attraction_distance(),
            final(self).min_move_distance() == old(self).min_move_distance(),
            final(self).stubbornness() == old(self).stubbornness(),
    {
        self.stickiness = a;
    }

    /// Anchors `p` (its first two coordinates, in a flat cluster) as a new
    /// point with the label `parent`, with no walk and no test of distance.
    pub fn add(&mut self, p: Vec3d, parent: usize)
        requires
            old(self).wf(),
            bounded(p@, POINT_LIMIT as int),
            old(self).points().len() < usize::MAX,
        ensures
            final(self).wf(),
            final(self).same_settings(old(self)),
            final(self).points() == old(self).points().push(project(old(self).dims(), p)),
            final(self).parents() == old(self).parents().push(parent),
            final(self).join_attempts() == old(self).join_attempts().push(0),
            final(self).bounding_radius() == vstd::math::max(
                old(self).bounding_radius(),
                root(norm2(project(old(self).dims(), p)@)) + old(self).attraction_distance(),
            ),
            final(self).draws() == old(self).draws(),
            final(self).contacts() == old(self).contacts(),
    {
        let q = if self.dims == 2 {
            Vec3d { x: p.x, y: p.y, z: 0 }
        } else {
            p
        };
        let id = self.points.len();
        proof {
            lemma_entries_bounded(self.points@);
            lemma_entries_push(self.points@, q);
        }
        tree_insert(&mut self.index, q.x as i128, q.y as i128, q.z as i128, id);
        self.points.push(q);
        self.parents.push(parent);
        self.join_attempts.push(0);
        let len = q.length();
        proof {
            lemma_length_bound(q@, POINT_LIMIT as int, len as int);
        }
        let reach = len + self.attraction_distance as i64;
        if reach > self.bounding_radius {
            self.bounding_radius = reach;
        }
        proof {
            assert forall|i: int| 0 <= i < self.points@.len() implies {
                &&& bounded(#[trigger] self.points@[i]@, POINT_LIMIT as int)
                &&& in_plane(self.dims, self.points@[i]@)
            } by {
                if i < id {
                    assert(self.points@[i] == old(self).points@[i]);
                }
            }
        }
    }

    /// How many values the cluster's random source has handed out.
    pub closed spec fn draws(&self) -> nat {
        self.rng.draws()
    }

    /// A random direction: candidates are drawn from the cube and kept once
    /// one lies in the ball. Each candidate costs one unit of `budget`;
    /// `None` means the budget ran out.
    fn random_direction(&mut self, budget: &mut u64) -> (r: Option<Vec3d>)
        requires
            old(self).wf(),
        ensures
            final(self).wf(),
            final(self).same_settings(old(self)),
            final(self).same_cluster(old(self)),
            *final(budget) <= *old(budget),
            final(self).draws() == old(self).draws() + (*old(budget) - *final(budget)),
            r matches Some(d) ==> {
                &&& is_direction(old(self).dims(), d@)
                &&& *final(budget) < *old(budget)
                &&& exists|c: Vec3d| direction_of_spec(old(self).dims(), c) == Some(d)
            },
            r is None ==> *final(budget) == 0,
    {
        while *budget > 0
            invariant
                self.wf(),
                self.same_settings(old(self)),
                self.same_cluster(old(self)),
                self.index == old(self).index,
                *budget <= *old(budget),
                self.draws() == old(self).draws() + (*old(budget) - *budget),
            decreases *budget,
        {
            *budget = *budget - 1;
            let c = self.rng.cube_point();
            if let Some(d) = direction_of(self.dims, c) {
                return Some(d);
            }
        }
        None
    }

    /// A random point on the bounding sphere: a random direction scaled to
    /// the bounding radius.
    pub fn random_starting_position(&mut self, budget: &mut u64) -> (r: Option<Vec3d>)
        requires
            old(self).wf(),
        ensures
            final(self).wf(),
            final(self).same_settings(old(self)),
            final(self).same_cluster(old(self)),
            *final(budget) <= *old(budget),
            final(self).draws() == old(self).draws() + (*old(budget) - *final(budget)),
            r matches Some(p) ==> {
                &&& exists|d: Triple|
                    is_direction(old(self).dims(), d) && p@ == #[trigger] toward(
                        (0int, 0int, 0int),
                        d,
                        old(self).bounding_radius(),
                    )
                &&& bounded(p@, old(self).bounding_radius())
                &&& in_plane(old(self).dims(), p@)
                &&& *final(budget) < *old(budget)
            },
            r is None ==> *final(budget) == 0,
    {
        match self.random_direction(budget) {
            Some(d) => {
                let p = lerp(Vec3d::zero(), d, self.bounding_radius);
                assert(is_direction(self.dims, d@));
                Some(p)
            },
            None => None,
        }
    }

    /// A walker at `p` is in range of point `parent`.
    pub open spec fn in_range(&self, p: Triple, parent: int) -> bool {
        root(dist2(p, self.points()[parent]@)) < self.attraction_distance()
    }

    /// A contact with `parent` and the fraction `draw` would join.
    pub open spec fn accepts(&self, parent: int, draw: int) -> bool {
        join_decision(
            bump(self.join_attempts()[parent]) as int,
            self.stubbornness(),
            draw,
            self.stickiness(),
        )
    }

    /// Where a walker at `p` joining `parent` is placed.
    pub open spec fn join_position(&self, p: Triple, parent: int) -> Triple {
        toward(self.points()[parent]@, p, self.particle_spacing())
    }

    /// Where a walker at `p` turned away by `parent` is pushed to.
    pub open spec fn pushed_back(&self, p: Triple, parent: int) -> Triple {
        toward(self.points()[parent]@, p, self.attraction_distance() + self.min_move_distance())
    }

    /// How far a walker out of range moves: the gap to the capture radius,
    /// and at least the least step.
    pub open spec fn step_length(&self, p: Triple, parent: int) -> int {
        let gap = root(dist2(p, self.points()[parent]@)) - self.attraction_distance();
        if gap > self.min_move_distance() {
            gap
        } else {
            self.min_move_distance()
        }
    }

    /// Where a walker out of range moves along the direction `dir`.
    pub open spec fn moved(&self, p: Triple, dir: Triple, parent: int) -> Triple {
        toward(p, sum(p, dir), self.step_length(p, parent))
    }

    /// What one step of a walker at `p`, nearest to `parent`, does with the
    /// direction `dir` and the fraction `draw`.
    pub open spec fn next_of(&self, p: Triple, dir: Triple, draw: int, parent: int) -> Next {
        if self.in_range(p, parent) {
            if self.accepts(parent, draw) {
                if bounded(self.join_position(p, parent), POINT_LIMIT as int) {
                    Next::Joined(self.points().len() as usize)
                } else {
                    Next::OutOfRange
                }
            } else {
                Next::Walk(vec_of(self.pushed_back(p, parent)))
            }
        } else if root(norm2(self.moved(p, dir, parent))) > 2 * self.bounding_radius() {
            Next::Reset
        } else {
            Next::Walk(vec_of(self.moved(p, dir, parent)))
        }
    }

    /// The counters after a step at `p` nearest to `parent`: one more
    /// contact for `parent` when the walker is in range.
    pub open spec fn attempts_after(&self, p: Triple, parent: int) -> Seq<usize> {
        if self.in_range(p, parent) {
            self.join_attempts().update(parent, bump(self.join_attempts()[parent]))
        } else {
            self.join_attempts()
        }
    }

    /// `after` is this cluster after a step at `p` nearest to `parent` that
    /// ended in `next`.
    pub open spec fn stepped(&self, after: &Self, p: Triple, parent: int, next: Next) -> bool {
        &&& after.same_settings(self)
        &&& match next {
            Next::Joined(_) => {
                let q = vec_of(self.join_position(p, parent));
                &&& after.points() == self.points().push(q)
                &&& after.parents() == self.parents().push(parent as usize)
                &&& after.join_attempts() == self.attempts_after(p, parent).push(0)
                &&& after.bounding_radius() == vstd::math::max(
                    self.bounding_radius(),
                    root(norm2(q@)) + self.attraction_distance(),
                )
            },
            _ => {
                &&& after.points() == self.points()
                &&& after.parents() == self.parents()
                &&& after.join_attempts() == self.attempts_after(p, parent)
                &&& after.bounding_radius() == self.bounding_radius()
            },
        }
    }

    /// One step of the walk, with the direction and the fraction already
    /// drawn: find the nearest point; in range, count the contact and join
    /// (or be pushed back); out of range, move, and ask for a reset when the
    /// walker strays beyond twice the bounding radius. The nearest point is
    /// any of them on a tie; everything else follows from the arguments.
    pub fn walk_step(&mut self, p: Vec3d, dir: Vec3d, draw: u64) -> (r: Step)
        requires
            old(self).wf(),
            0 < old(self).points().len() < usize::MAX,
            bounded(p@, WALK_LIMIT as int),
            in_plane(old(self).dims(), p@),
            is_direction(old(self).dims(), dir@),
            draw < UNIT,
        ensures
            final(self).wf(),
            is_nearest(old(self).points(), p@, r.parent as int),
            r.next == old(self).next_of(p@, dir@, draw as int, r.parent as int),
            old(self).stepped(&*final(self), p@, r.parent as int, r.next),
            final(self).draws() == old(self).draws(),
            final(self).contacts() == if old(self).in_range(p@, r.parent as int) {
                old(self).contacts().push((p@, r.parent))
            } else {
                old(self).contacts()
            },
            r.next matches Next::Walk(q) ==> bounded(q@, WALK_LIMIT as int) && in_plane(
                old(self).dims(),
                q@,
            ),
    {
        let parent = self.nearest(&p);
        let q = self.points[parent];
        let d = p.distance(q);
        proof {
            lemma_length_bound(diff(p@, q@), WALK_LIMIT + POINT_LIMIT, d as int);
        }
        if d < self.attraction_distance as i64 {
            let a = self.join_attempts[parent];
            let a = if a < usize::MAX {
                a + 1
            } else {
                a
            };
            self.join_attempts.set(parent, a);
            self.contacts = Ghost(self.contacts@.push((p@, parent)));
            if a >= self.stubbornness && draw <= self.stickiness {
                let c = lerp(q, p, self.particle_spacing as i64);
                if !(-POINT_LIMIT <= c.x && c.x <= POINT_LIMIT && -POINT_LIMIT <= c.y && c.y
                    <= POINT_LIMIT && -POINT_LIMIT <= c.z && c.z <= POINT_LIMIT) {
                    return Step { parent, next: Next::OutOfRange };
                }
                let id = self.points.len();
                self.add(c, parent);
                return Step { parent, next: Next::Joined(id) };
            }
            let back = lerp(q, p, (self.attraction_distance + self.min_move_distance) as i64);
            return Step { parent, next: Next::Walk(back) };
        }
        let gap = d - self.attraction_distance as i64;
        let m = if gap > self.min_move_distance as i64 {
            gap
        } else {
            self.min_move_distance as i64
        };
        let moved = lerp(p, p.plus(dir), m);
        let len = moved.length();
        if len > 2 * self.bounding_radius {
            Step { parent, next: Next::Reset }
        } else {
            proof {
                lemma_coords_within_length(moved@, len as int);
            }
            Step { parent, next: Next::Walk(moved) }
        }
    }

    /// Releases a walker on the bounding sphere and walks it until it joins
    /// the cluster. Each step draws a fraction and each candidate direction
    /// is one draw; the walk stops with `Exhausted` once `max_steps` draws
    /// have been made, and only then.
    pub fn add_particle_within(&mut self, max_steps: u64) -> (r: Result<usize, GrowthError>)
        requires
            old(self).wf(),
            old(self).points().len() > 0,
            old(self).points().len() < usize::MAX,
        ensures
            final(self).wf(),
            grew(*old(self), *final(self), r),
            final(self).draws() <= old(self).draws() + max_steps,
            r == Err::<usize, GrowthError>(GrowthError::Exhausted) ==> final(self).draws()
                == old(self).draws() + max_steps,
    {
        let mut budget = max_steps;
        let mut p = match self.random_starting_position(&mut budget) {
            Some(s) => s,
            None => {
                proof {
                    assert(new_contacts(*old(self), *self) =~= Seq::empty());
                    assert(self.contacts().subrange(0, old(self).contacts().len() as int)
                        =~= old(self).contacts());
                }
                return Err(GrowthError::Exhausted);
            },
        };
        proof {
            assert(new_contacts(*old(self), *self) =~= Seq::empty());
            assert(self.contacts().subrange(0, old(self).contacts().len() as int)
                =~= old(self).contacts());
        }
        loop
            invariant
                self.wf(),
                0 < old(self).points().len() < usize::MAX,
                self.same_settings(old(self)),
                self.points() == old(self).points(),
                self.parents() == old(self).parents(),
                self.bounding_radius() == old(self).bounding_radius(),
                self.join_attempts().len() == old(self).points().len(),
                forall|i: int|
                    0 <= i < old(self).points().len() ==> #[trigger] self.join_attempts()[i]
                        >= old(self).join_attempts()[i],
                forall|i: int|
                    0 <= i < old(self).points().len() && #[trigger] self.join_attempts()[i]
                        != old(self).join_attempts()[i] ==> exists|w: Triple| #[trigger]
                        captures(old(self).points(), w, i, old(self).attraction_distance()),
                bounded(p@, WALK_LIMIT as int),
                in_plane(self.dims(), p@),
                (old(self).stubbornness() == 0 && old(self).stickiness() >= UNIT) ==> self.join_attempts()
                    == old(self).join_attempts(),
                budget <= max_steps,
                self.draws() == old(self).draws() + (max_steps - budget),
                old(self).contacts().len() <= self.contacts().len(),
                self.contacts().subrange(0, old(self).contacts().len() as int) == old(
                    self,
                ).contacts(),
                all_captured(
                    old(self).points(),
                    new_contacts(*old(self), *self),
                    old(self).attraction_distance(),
                ),
                forall|i: int|
                    0 <= i < old(self).points().len() ==> #[trigger] self.join_attempts()[i]
                        == counted(
                        old(self).join_attempts()[i],
                        count_of(new_contacts(*old(self), *self), i),
                    ),
            decreases budget,
        {
            if budget == 0 {
                return Err(GrowthError::Exhausted);
            }
            budget = budget - 1;
            let draw = self.rng.fraction();
            let ghost pre = *self;
            let dir = match self.random_direction(&mut budget) {
                Some(d) => d,
                None => {
                    proof {
                        assert(new_contacts(*old(self), *self) == new_contacts(*old(self), pre));
                    }
                    return Err(GrowthError::Exhausted);
                },
            };
            proof {
                assert(new_contacts(*old(self), *self) == new_contacts(*old(self), pre));
            }
            let ghost before = *self;
            let step = self.walk_step(p, dir, draw);
            proof {
                let parent = step.parent as int;
                let olds = new_contacts(*old(self), before);
                let news = new_contacts(*old(self), *self);
                if before.in_range(p@, parent) {
                    assert(captures(old(self).points(), p@, parent, old(self).attraction_distance()));
                    assert(news =~= olds.push((p@, step.parent)));
                    assert(news.drop_last() =~= olds);
                    assert forall|i: int| 0 <= i < old(self).points().len() implies #[trigger]
                        self.join_attempts()[i] == counted(
                        old(self).join_attempts()[i],
                        count_of(news, i),
                    ) by {
                        assert(count_of(news, i) == count_of(olds, i) + if i == parent {
                            1nat
                        } else {
                            0nat
                        });
                    }
                    assert(self.contacts().subrange(0, old(self).contacts().len() as int)
                        =~= old(self).contacts());
                    assert forall|k: int| 0 <= k < news.len() implies captures(
                        old(self).points(),
                        (#[trigger] news[k]).0,
                        news[k].1 as int,
                        old(self).attraction_distance(),
                    ) by {
                        if k < olds.len() {
                            assert(news[k] == olds[k]);
                        }
                    }
                    assert(all_captured(
                        old(self).points(),
                        news,
                        old(self).attraction_distance(),
                    ));
                } else {
                    assert(self.contacts() == before.contacts());
                    assert(news =~= olds);
                }
            }
            match step.next {
                Next::Joined(id) => {
                    proof {
                        let parent = step.parent as int;
                        let q2 = self.points()[id as int];
                        assert(self.points() =~= old(self).points().push(q2));
                        assert(self.parents() =~= old(self).parents().push(step.parent));
                        assert(self.join_attempts()[id as int] == 0);
                        assert(self.join_attempts()[parent] == bump(before.join_attempts()[parent]));
                        assert(join_decision(
                            self.join_attempts()[parent] as int,
                            old(self).stubbornness(),
                            draw as int,
                            old(self).stickiness(),
                        ));
                        assert(q2@ == toward(old(self).points()[parent]@, p@, old(self).particle_spacing()));
                        if old(self).stubbornness() == 0 && old(self).stickiness() >= UNIT {
                            assert(self.join_attempts() =~= old(self).join_attempts().update(
                                parent,
                                bump(old(self).join_attempts()[parent]),
                            ).push(0));
                        }
                    }
                    return Ok(id);
                },
                Next::OutOfRange => {
                    return Err(GrowthError::OutOfRange);
                },
                Next::Walk(q) => {
                    p = q;
                },
                Next::Reset => {
                    let ghost mid = *self;
                    p = match self.random_starting_position(&mut budget) {
                        Some(s) => s,
                        None => {
                            proof {
                                assert(new_contacts(*old(self), *self) == new_contacts(
                                    *old(self),
                                    mid,
                                ));
                            }
                            return Err(GrowthError::Exhausted);
                        },
                    };
                    proof {
                        assert(new_contacts(*old(self), *self) == new_contacts(*old(self), mid));
                    }
                },
            }
        }
    }

    /// Grows the cluster by one particle. The walk has no bound of its own:
    /// it ends with `Exhausted` only after `u64::MAX` steps and draws.
    pub fn add_particle(&mut self) -> (r: Result<usize, GrowthError>)
        requires
            old(self).wf(),
            old(self).points().len() > 0,
            old(self).points().len() < usize::MAX,
        ensures
            final(self).wf(),
            grew(*old(self), *final(self), r),
            final(self).draws() <= old(self).draws() + u64::MAX,
            r == Err::<usize, GrowthError>(GrowthError::Exhausted) ==> final(self).draws()
                == old(self).draws() + u64::MAX,
    {
        self.add_particle_within(u64::MAX)
    }

    pub fn point_count(&self) -> (r: usize)
        ensures
            r == self.points().len(),
    {
        self.points.len()
    }

    pub fn point_at(&self, i: usize) -> (r: Vec3d)
        requires
            i < self.points().len(),
        ensures
            r == self.points()[i as int],
    {
        self.points[i]
    }

    pub fn parent_at(&self, i: usize) -> (r: usize)
        requires
            self.wf(),
            i < self.points().len(),
        ensures
            r == self.parents()[i as int],
    {
        self.parents[i]
    }

    pub fn join_attempts_at(&self, i: usize) -> (r: usize)
        requires
            self.wf(),
            i < self.points().len(),
        ensures
            r == self.join_attempts()[i as int],
    {
        self.join_attempts[i]
    }

    pub fn radius(&self) -> (r: i64)
        ensures
            r == self.bounding_radius(),
    {
        self.bounding_radius
    }

    pub fn dimensions(&self) -> (r: usize)
        ensures
            r == self.dims(),
    {
        self.dims
    }

    /// The export surface: one record per point, in insertion order.
    pub open spec fn records_view(&self) -> Seq<Record> {
        Seq::new(self.points().len(), |i: int| record_of(i, self.parents()[i], self.points()[i]))
    }

    /// The points in insertion order, each with its identifier and label.
    pub fn records(&self) -> (r: Vec<Record>)
        requires
            self.wf(),
        ensures
            r@ == self.records_view(),
    {
        let mut out: Vec<Record> = Vec::new();
        let mut i: usize = 0;
        while i < self.points.len()
            invariant
                self.wf(),
                i <= self.points@.len(),
                out@.len() == i,
                forall|j: int|
                    0 <= j < i ==> #[trigger] out@[j] == record_of(
                        j,
                        self.parents@[j],
                        self.points@[j],
                    ),
            decreases self.points@.len() - i,
        {
            let p = self.points[i];
            out.push(Record { id: i, parent: self.parents[i], x: p.x, y: p.y, z: p.z });
            i = i + 1;
        }
        assert(out@ =~= self.records_view());
        out
    }

    /// The cluster as a table: a header line, then `id,parent,x,y,z` for
    /// each point in insertion order, coordinates with four decimals.
    pub fn to_csv(&self) -> (r: Vec<u8>)
        requires
            self.wf(),
        ensures
            r@ == table(self.records_view()),
    {
        let records = self.records();
        encode_table(&records)
    }

    /// The identifier of a point nearest to `p`.
    pub fn nearest(&self, p: &Vec3d) -> (r: usize)
        requires
            self.wf(),
            self.points().len() > 0,
            bounded(p@, WALK_LIMIT as int),
        ensures
            is_nearest(self.points(), p@, r as int),
    {
        proof {
            lemma_entries(self.points@);
            lemma_entries_bounded(self.points@);
        }
        let found = tree_nearest(&self.index, p.x as i128, p.y as i128, p.z as i128);
        let e = found.unwrap();
        proof {
            assert forall|j: int| 0 <= j < self.points@.len() implies dist2(
                p@,
                self.points@[e.3 as int]@,
            ) <= #[trigger] dist2(p@, self.points@[j]@) by {
                let f = entry_of(self.points@[j], j);
                assert(tree_entries(self.index).contains(f));
                lemma_entry_dist(self.points@[j], j, *p);
                lemma_entry_dist(self.points@[e.3 as int], e.3 as int, *p);
            }
        }
        e.3
    }
}

proof fn lemma_entries_count(pts: Seq<Vec3d>, i: int)
    requires
        pts.len() <= usize::MAX,
        0 <= i < pts.len(),
    ensures
        entries_of(pts).count(entry_of(pts[i], i)) == 1,
    decreases pts.len(),
{
    let prev = pts.drop_last();
    let x = entry_of(pts.last(), pts.len() - 1);
    lemma_entries(prev);
    assert(entries_of(pts) == entries_of(prev).insert(x));
    if i < pts.len() - 1 {
        lemma_entries_count(prev, i);
        assert(prev[i] == pts[i]);
    } else {
        assert(!entries_of(prev).contains(x));
    }
}

/// What every well-formed cluster holds: one label and one counter per
/// point, the settings and points within their limits, every point of a
/// flat cluster in the plane `z == 0`, and a radius no smaller than zero.
pub proof fn well_formed_facts<R: RandomSource>(a: Aggregation<R>)
    requires
        a.wf(),
    ensures
        a.dims() == 2 || a.dims() == 3,
        a.parents().len() == a.points().len(),
        a.join_attempts().len() == a.points().len(),
        a.points().len() <= usize::MAX,
        0 <= a.particle_spacing() <= PARAM_LIMIT,
        0 <= a.attraction_distance() <= PARAM_LIMIT,
        0 <= a.min_move_distance() <= PARAM_LIMIT,
        0 <= a.bounding_radius() <= RADIUS_LIMIT,
        forall|i: int|
            0 <= i < a.points().len() ==> {
                &&& bounded(#[trigger] a.points()[i]@, POINT_LIMIT as int)
                &&& in_plane(a.dims(), a.points()[i]@)
            },
        a.indexed() == entries_of(a.points()),
{
}

/// Identifiers form the contiguous range `0..N` with no gap and no
/// duplicate: the index holds exactly one entry for each point, tagged with
/// the point's position in insertion order, and no other entry.
pub proof fn identifiers_are_contiguous<R: RandomSource>(a: Aggregation<R>)
    requires
        a.wf(),
    ensures
        a.indexed().len() == a.points().len(),
        forall|i: int|
            0 <= i < a.points().len() ==> #[trigger] a.indexed().count(entry_of(a.points()[i], i))
                == 1,
        forall|e: (i128, i128, i128, usize)| #[trigger]
            a.indexed().contains(e) ==> e.3 < a.points().len() && e == entry_of(
                a.points()[e.3 as int],
                e.3 as int,
            ),
{
    lemma_entries(a.points());
    assert forall|i: int| 0 <= i < a.points().len() implies #[trigger] a.indexed().count(
        entry_of(a.points()[i], i),
    ) == 1 by {
        lemma_entries_count(a.points(), i);
    }
}

/// Seeded with one point and grown by `N` calls that each joined, a
/// cluster holds `N + 1` points and the calls handed out the identifiers
/// `1..=N` in order.
pub proof fn seeded_growth<R: RandomSource>(
    states: Seq<Aggregation<R>>,
    results: Seq<Result<usize, GrowthError>>,
)
    requires
        states.len() == results.len() + 1,
        states[0].points().len() == 1,
        forall|k: int| 0 <= k < results.len() ==> #[trigger] results[k] is Ok,
        forall|k: int|
            0 <= k < results.len() ==> #[trigger] grew(states[k], states[k + 1], results[k]),
    ensures
        states.last().points().len() == results.len() + 1,
        forall|k: int| 0 <= k < results.len() ==> #[trigger] results[k] == Ok::<usize, GrowthError>((k + 1) as usize),
    decreases results.len(),
{
    if results.len() > 0 {
        let n = results.len() - 1;
        let s0 = states.drop_last();
        let r0 = results.drop_last();
        assert forall|k: int| 0 <= k < r0.len() implies #[trigger] r0[k] is Ok by {
            assert(r0[k] == results[k]);
        }
        assert forall|k: int| 0 <= k < r0.len() implies #[trigger] grew(
            s0[k],
            s0[k + 1],
            r0[k],
        ) by {
            assert(s0[k] == states[k]);
            assert(s0[k + 1] == states[k + 1]);
            assert(r0[k] == results[k]);
            assert(grew(states[k], states[k + 1], results[k]));
        }
        assert(s0[0] == states[0]);
        seeded_growth(s0, r0);
        assert(grew(states[n], states[n + 1], results[n]));
        assert(s0.last() == states[n]);
        assert forall|k: int| 0 <= k < results.len() implies #[trigger] results[k] == Ok::<
            usize,
            GrowthError,
        >((k + 1) as usize) by {
            if k < n {
                assert(r0[k] == results[k]);
            }
        }
    }
}

/// A step is determined by what it reads: two clusters that agree on their
/// settings, points, counters and radius take the same step from the same
/// walker, direction, fraction and nearest point.
pub proof fn step_is_determined<R: RandomSource, S: RandomSource>(
    a: Aggregation<R>,
    b: Aggregation<S>,
    p: Triple,
    dir: Triple,
    draw: int,
    parent: int,
)
    requires
        a.dims() == b.dims(),
        a.particle_spacing() == b.particle_spacing(),
        a.attraction_distance() == b.attraction_distance(),
        a.min_move_distance() == b.min_move_distance(),
        a.stubbornness() == b.stubbornness(),
        a.stickiness() == b.stickiness(),
        a.points() == b.points(),
        a.join_attempts() == b.join_attempts(),
        a.bounding_radius() == b.bounding_radius(),
    ensures
        a.next_of(p, dir, draw, parent) == b.next_of(p, dir, draw, parent),
        a.attempts_after(p, parent) == b.attempts_after(p, parent),
{
}

/// Over any sequence of growth calls, the bounding radius never decreases,
/// no point is lost, and no point's join-attempt counter decreases.
pub proof fn growth_is_monotone<R: RandomSource>(
    states: Seq<Aggregation<R>>,
    results: Seq<Result<usize, GrowthError>>,
    j: int,
    k: int,
)
    requires
        states.len() == results.len() + 1,
        forall|m: int|
            0 <= m < results.len() ==> #[trigger] grew(states[m], states[m + 1], results[m]),
        0 <= j <= k < states.len(),
    ensures
        states[k].bounding_radius() >= states[j].bounding_radius(),
        states[k].points().len() >= states[j].points().len(),
        forall|i: int|
            0 <= i < states[j].points().len() ==> #[trigger] states[k].join_attempts()[i]
                >= states[j].join_attempts()[i],
    decreases k - j,
{
    if j < k {
        growth_is_monotone(states, results, j + 1, k);
        assert(grew(states[j], states[j + 1], results[j]));
        let a = states[j];
        let b = states[j + 1];
        match results[j] {
            Ok(id) => {
                assert(b.points().len() == a.points().len() + 1);
            },
            Err(_) => {
                assert(b.points().len() == a.points().len());
            },
        }
        assert forall|i: int| 0 <= i < states[j].points().len() implies #[trigger] states[k].join_attempts()[i]
            >= states[j].join_attempts()[i] by {
            assert(b.join_attempts()[i] >= a.join_attempts()[i]);
            assert(i < b.points().len());
        }
    }
}

/// A joined point lies at the particle spacing from its parent, up to the
/// rounding of the fixed-point grid: in ticks, its squared distance exceeds
/// `s * s - 6 * s - 3`, and its distance is at most `s * (1 + 1 / PRECISION)`.
pub proof fn joined_point_at_spacing<R: RandomSource>(
    a: Aggregation<R>,
    b: Aggregation<R>,
    id: usize,
)
    requires
        grew(a, b, Ok(id)),
    ensures
        ({
            let s = a.particle_spacing();
            let d2 = dist2(b.points()[id as int]@, b.points()[b.parents()[id as int] as int]@);
            &&& s * s - 6 * s - 3 < d2
            &&& d2 * PRECISION * PRECISION <= s * s * (PRECISION + 1) * (PRECISION + 1)
        }),
{
    let parent = b.parents()[id as int] as int;
    let q = b.points()[id as int];
    let w = choose|w: Triple|
        captures(a.points(), w, parent, a.attraction_distance()) && q@ == #[trigger] toward(
            a.points()[parent]@,
            w,
            a.particle_spacing(),
        );
    assert(b.points()[parent] == a.points()[parent]);
    lemma_toward_distance(a.points()[parent]@, w, a.particle_spacing());
}

impl Aggregation<StdSource> {
    /// An empty two-dimensional cluster with the default settings.
    pub fn flat() -> (r: Self)
        ensures
            r.wf(),
            r.dims() == 2,
            r.points().len() == 0,
            r.parents().len() == 0,
            r.join_attempts().len() == 0,
            r.bounding_radius() == 0,
            r.has_defaults(),
    {
        Self::with_source(2, StdSource::new())
    }

    /// An empty three-dimensional cluster with the default settings.
    pub fn convex() -> (r: Self)
        ensures
            r.wf(),
            r.dims() == 3,
            r.points().len() == 0,
            r.parents().len() == 0,
            r.join_attempts().len() == 0,
            r.bounding_radius() == 0,
            r.has_defaults(),
    {
        Self::with_source(3, StdSource::new())
    }
}

} // verus!
