//! Sources of randomness for the walk.

use crate::geometry::{bounded, Vec3d, UNIT};
use vstd::prelude::*;

verus! {

#[verifier::external_type_specification]
#[verifier::external_body]
pub struct ExStdRng(rand::rngs::StdRng);

/// Relies on rand's `SeedableRng::from_entropy`: a generator seeded by the
/// operating system.
#[verifier::external_body]
fn rng_from_entropy() -> rand::rngs::StdRng {
    <rand::rngs::StdRng as rand::SeedableRng>::from_entropy()
}

/// Relies on rand's `SeedableRng::seed_from_u64`: a generator whose stream
/// is fixed by the seed.
#[verifier::external_body]
fn rng_from_seed(seed: u64) -> rand::rngs::StdRng {
    <rand::rngs::StdRng as rand::SeedableRng>::seed_from_u64(seed)
}

/// Relies on rand's `Rng::gen_range`: a value in `[low, high)`; it panics
/// only when `low >= high`.
#[verifier::external_body]
fn rng_between(rng: &mut rand::rngs::StdRng, low: i64, high: i64) -> (r: i64)
    requires
        low < high,
    ensures
        low <= r < high,
{
    rand::Rng::gen_range(rng, low, high)
}

/// What the walk draws: points of a cube, from which directions are taken,
/// and fractions, against which a join's probability is tested.
pub trait RandomSource {
    spec fn inv(&self) -> bool;

    /// How many values the source has handed out so far.
    spec fn draws(&self) -> nat;

    /// A point of the cube `[-UNIT, UNIT]` in each coordinate.
    fn cube_point(&mut self) -> (p: Vec3d)
        requires
            old(self).inv(),
        ensures
            final(self).inv(),
            bounded(p@, UNIT as int),
            final(self).draws() == old(self).draws() + 1,
    ;

    /// A fraction of `UNIT`, in `[0, UNIT)`.
    fn fraction(&mut self) -> (r: u64)
        requires
            old(self).inv(),
        ensures
            final(self).inv(),
            r < UNIT,
            final(self).draws() == old(self).draws() + 1,
    ;
}

/// Uniform draws from a seeded pseudo-random generator: coordinates in
/// `[-UNIT, UNIT)`, fractions in `[0, UNIT)`.
pub struct StdSource {
    rng: rand::rngs::StdRng,
    count: Ghost<nat>,
}

impl StdSource {
    /// A source seeded by the operating system.
    pub fn new() -> (r: StdSource)
        ensures
            r.draws() == 0,
    {
        StdSource { rng: rng_from_entropy(), count: Ghost(0) }
    }

    /// A source whose draws are fixed by `seed`.
    pub fn seeded(seed: u64) -> (r: StdSource)
        ensures
            r.draws() == 0,
    {
        StdSource { rng: rng_from_seed(seed), count: Ghost(0) }
    }
}

impl RandomSource for StdSource {
    open spec fn inv(&self) -> bool {
        true
    }

    closed spec fn draws(&self) -> nat {
        self.count@
    }

    fn cube_point(&mut self) -> (p: Vec3d) {
        let x = rng_between(&mut self.rng, -UNIT, UNIT);
        let y = rng_between(&mut self.rng, -UNIT, UNIT);
        let z = rng_between(&mut self.rng, -UNIT, UNIT);
        self.count = Ghost(self.count@ + 1);
        Vec3d { x, y, z }
    }

    fn fraction(&mut self) -> (r: u64) {
        let r = rng_between(&mut self.rng, 0, UNIT) as u64;
        self.count = Ghost(self.count@ + 1);
        r
    }
}

/// Draws given in advance, handed out in turn and repeated from the start
/// once used up.
pub struct ReplaySource {
    points: Vec<Vec3d>,
    fractions: Vec<u64>,
    next_point: usize,
    next_fraction: usize,
    count: Ghost<nat>,
}

impl ReplaySource {
    pub open spec fn valid_points(points: Seq<Vec3d>) -> bool {
        &&& points.len() > 0
        &&& forall|i: int| 0 <= i < points.len() ==> bounded(#[trigger] points[i]@, UNIT as int)
    }

    pub open spec fn valid_fractions(fractions: Seq<u64>) -> bool {
        &&& fractions.len() > 0
        &&& forall|i: int| 0 <= i < fractions.len() ==> #[trigger] fractions[i] < UNIT
    }

    /// The points handed out in turn.
    pub closed spec fn points(&self) -> Seq<Vec3d> {
        self.points@
    }

    /// The fractions handed out in turn.
    pub closed spec fn fractions(&self) -> Seq<u64> {
        self.fractions@
    }

    /// Position in `points()` of the next point handed out.
    pub closed spec fn point_cursor(&self) -> int {
        self.next_point as int
    }

    /// Position in `fractions()` of the next fraction handed out.
    pub closed spec fn fraction_cursor(&self) -> int {
        self.next_fraction as int
    }

    /// A source that replays `points` and `fractions`, each from its start.
    pub fn new(points: Vec<Vec3d>, fractions: Vec<u64>) -> (r: ReplaySource)
        requires
            Self::valid_points(points@),
            Self::valid_fractions(fractions@),
        ensures
            r.inv(),
            r.points() == points@,
            r.fractions() == fractions@,
            r.point_cursor() == 0,
            r.fraction_cursor() == 0,
            r.draws() == 0,
    {
        ReplaySource { points, fractions, next_point: 0, next_fraction: 0, count: Ghost(0) }
    }

    /// The point at the cursor; the cursor moves on, back to the start
    /// after the last point.
    pub fn next_point(&mut self) -> (p: Vec3d)
        requires
            old(self).inv(),
        ensures
            final(self).inv(),
            p == old(self).points()[old(self).point_cursor()],
            final(self).points() == old(self).points(),
            final(self).fractions() == old(self).fractions(),
            final(self).fraction_cursor() == old(self).fraction_cursor(),
            final(self).point_cursor() == (old(self).point_cursor() + 1) % (old(
                self,
            ).points().len() as int),
            final(self).draws() == old(self).draws() + 1,
    {
        let p = self.points[self.next_point];
        let ghost n = self.points@.len() as int;
        let ghost c = self.next_point as int;
        if self.next_point + 1 < self.points.len() {
            proof {
                vstd::arithmetic::div_mod::lemma_small_mod((c + 1) as nat, n as nat);
            }
            self.next_point = self.next_point + 1;
        } else {
            proof {
                vstd::arithmetic::div_mod::lemma_mod_self_0(n);
            }
            self.next_point = 0;
        }
        self.count = Ghost(self.count@ + 1);
        p
    }

    /// The fraction at the cursor; the cursor moves on, back to the start
    /// after the last fraction.
    pub fn next_fraction(&mut self) -> (r: u64)
        requires
            old(self).inv(),
        ensures
            final(self).inv(),
            r == old(self).fractions()[old(self).fraction_cursor()],
            final(self).points() == old(self).points(),
            final(self).fractions() == old(self).fractions(),
            final(self).point_cursor() == old(self).point_cursor(),
            final(self).fraction_cursor() == (old(self).fraction_cursor() + 1) % (old(
                self,
            ).fractions().len() as int),
            final(self).draws() == old(self).draws() + 1,
    {
        let r = self.fractions[self.next_fraction];
        let ghost n = self.fractions@.len() as int;
        let ghost c = self.next_fraction as int;
        if self.next_fraction + 1 < self.fractions.len() {
            proof {
                vstd::arithmetic::div_mod::lemma_small_mod((c + 1) as nat, n as nat);
            }
            self.next_fraction = self.next_fraction + 1;
        } else {
            proof {
                vstd::arithmetic::div_mod::lemma_mod_self_0(n);
            }
            self.next_fraction = 0;
        }
        self.count = Ghost(self.count@ + 1);
        r
    }
}

impl RandomSource for ReplaySource {
    closed spec fn inv(&self) -> bool {
        &&& Self::valid_points(self.points@)
        &&& Self::valid_fractions(self.fractions@)
        &&& self.next_point < self.points.len()
        &&& self.next_fraction < self.fractions.len()
    }

    closed spec fn draws(&self) -> nat {
        self.count@
    }

    fn cube_point(&mut self) -> (p: Vec3d) {
        let p = self.next_point();
        assert(bounded(self.points@[old(self).next_point as int]@, UNIT as int));
        p
    }

    fn fraction(&mut self) -> (r: u64) {
        let r = self.next_fraction();
        assert(self.fractions@[old(self).next_fraction as int] < UNIT);
        r
    }
}

} // verus!
