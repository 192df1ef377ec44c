//! The flock: all boids, and the tick that moves and then steers them.

use crate::behaviour::{all_wf, boid_behaviours, models, steered_by, targets, Behaviours, Targets};
use crate::boid::{Boid, BoidModel, COORD_MAX, EXTENT_MAX};
use crate::scalar::magnitude_of;
use crate::vec2::Vec2;
use vstd::prelude::*;

verus! {

/// Every boid of the flock is within its limits.
pub open spec fn all_valid(flock: Seq<BoidModel>) -> bool {
    forall|i: int| 0 <= i < flock.len() ==> (#[trigger] flock[i]).valid()
}

/// The flock after each boid moved for one tick.
pub open spec fn flock_moved(flock: Seq<BoidModel>, half_width: int, half_height: int) -> Seq<
    BoidModel,
> {
    flock.map_values(|b: BoidModel| b.moved(half_width, half_height))
}

/// The flock after the rules were applied to each boid. Each boid is steered
/// by the flock as it was before any of them was: none sees what the rules
/// did to another in the same tick.
pub open spec fn flock_steered(flock: Seq<BoidModel>) -> Seq<BoidModel> {
    flock.map_values(|b: BoidModel| steered_by(b, targets(b, flock)))
}

/// The flock after one tick: all boids move, with the acceleration that the
/// tick before left them, and then the rules give each its next
/// acceleration.
pub open spec fn flock_stepped(flock: Seq<BoidModel>, half_width: int, half_height: int) -> Seq<
    BoidModel,
> {
    flock_steered(flock_moved(flock, half_width, half_height))
}

/// The flock after `ticks` ticks in a world of one size.
pub open spec fn after_ticks(
    flock: Seq<BoidModel>,
    half_width: int,
    half_height: int,
    ticks: nat,
) -> Seq<BoidModel>
    decreases ticks,
{
    if ticks == 0 {
        flock
    } else {
        flock_stepped(
            after_ticks(flock, half_width, half_height, (ticks - 1) as nat),
            half_width,
            half_height,
        )
    }
}

/// All boids of a simulation, in the order in which they came.
pub struct Flock {
    boids: Vec<Boid>,
}

impl View for Flock {
    type V = Seq<BoidModel>;

    closed spec fn view(&self) -> Seq<BoidModel> {
        models(self.boids@)
    }
}

impl Flock {
    /// Every boid of the flock is within its limits.
    pub open spec fn wf(&self) -> bool {
        all_valid(self@)
    }

    /// A flock without boids.
    pub fn new() -> (flock: Flock)
        ensures
            flock@ == Seq::<BoidModel>::empty(),
            flock.wf(),
    {
        let flock = Flock { boids: Vec::new() };
        assert(flock@ =~= Seq::<BoidModel>::empty());
        flock
    }

    /// How many boids there are.
    pub fn len(&self) -> (n: usize)
        ensures
            n == self@.len(),
    {
        self.boids.len()
    }

    /// The boid that came as the `i`-th.
    pub fn get(&self, i: usize) -> (boid: Boid)
        requires
            i < self@.len(),
        ensures
            boid@ == self@[i as int],
    {
        self.boids[i]
    }

    /// Adds `boid` to the flock, behind all others.
    pub fn push(&mut self, boid: Boid)
        requires
            old(self).wf(),
            boid.wf(),
        ensures
            final(self)@ == old(self)@.push(boid@),
            final(self).wf(),
    {
        self.boids.push(boid);
        assert(self@ =~= old(self)@.push(boid@));
    }

    /// Adds a new boid at `pos`, with a random velocity and the default
    /// parameters.
    pub fn spawn(&mut self, pos: Vec2)
        requires
            old(self).wf(),
            magnitude_of(pos.x as int) <= COORD_MAX,
            magnitude_of(pos.y as int) <= COORD_MAX,
        ensures
            exists|bits_x: u32, bits_y: u32|
                final(self)@ == old(self)@.push(BoidModel::spawned(pos@, bits_x, bits_y)),
            final(self)@.len() == old(self)@.len() + 1,
            final(self).wf(),
    {
        let boid = Boid::new(pos);
        self.push(boid);
    }

    /// The first half of a tick: every boid moves by its velocity, wraps at
    /// the edges of a world that reaches `half_width` and `half_height` from
    /// its centre, and takes up the acceleration that the tick before left it,
    /// up to its speed limit.
    pub fn update_boids(&mut self, half_width: i64, half_height: i64)
        requires
            old(self).wf(),
            0 <= half_width <= EXTENT_MAX,
            0 <= half_height <= EXTENT_MAX,
        ensures
            final(self)@ == flock_moved(old(self)@, half_width as int, half_height as int),
            final(self).wf(),
    {
        let n: usize = self.boids.len();
        let mut i: usize = 0;
        proof {
            lemma_wf_of_models(self.boids@);
        }
        while i < n
            invariant
                i <= n == self.boids.len() == old(self).boids.len(),
                0 <= half_width <= EXTENT_MAX,
                0 <= half_height <= EXTENT_MAX,
                all_wf(self.boids@),
                forall|j: int|
                    0 <= j < i ==> (#[trigger] self.boids[j])@ == old(self).boids[j]@.moved(
                        half_width as int,
                        half_height as int,
                    ),
                forall|j: int| i <= j < n ==> #[trigger] self.boids[j] == old(self).boids[j],
            decreases n - i,
        {
            let mut boid = self.boids[i];
            boid.update(half_width, half_height);
            self.boids[i] = boid;
            i += 1;
        }
        proof {
            lemma_wf_of_models(self.boids@);
            assert(self@ =~= flock_moved(old(self)@, half_width as int, half_height as int));
        }
    }

    /// The second half of a tick: the rules are applied to every boid, each
    /// by the flock as it is when the call begins.
    pub fn apply_all_boid_behaviours(&mut self)
        requires
            old(self).wf(),
        ensures
            final(self)@ == flock_steered(old(self)@),
            final(self).wf(),
    {
        let n: usize = self.boids.len();
        let mut boids_behaviours: Vec<Option<Behaviours>> = Vec::new();
        let mut i: usize = 0;
        proof {
            lemma_wf_of_models(self.boids@);
        }
        while i < n
            invariant
                i <= n == self.boids.len(),
                *self == *old(self),
                all_wf(self.boids@),
                boids_behaviours.len() == i,
                forall|j: int|
                    0 <= j < i ==> asked_of(#[trigger] boids_behaviours[j]) == targets(
                        self.boids[j]@,
                        models(self.boids@),
                    ),
            decreases n - i,
        {
            let asked = boid_behaviours(&self.boids[i], &self.boids);
            boids_behaviours.push(asked);
            i += 1;
        }
        let mut i: usize = 0;
        while i < n
            invariant
                i <= n == self.boids.len() == old(self).boids.len(),
                boids_behaviours.len() == n,
                all_wf(self.boids@),
                forall|j: int|
                    0 <= j < n ==> asked_of(#[trigger] boids_behaviours[j]) == targets(
                        old(self).boids[j]@,
                        models(old(self).boids@),
                    ),
                forall|j: int|
                    0 <= j < i ==> (#[trigger] self.boids[j])@ == steered_by(
                        old(self).boids[j]@,
                        targets(old(self).boids[j]@, models(old(self).boids@)),
                    ),
                forall|j: int| i <= j < n ==> #[trigger] self.boids[j] == old(self).boids[j],
            decreases n - i,
        {
            let asked = boids_behaviours[i];
            match asked {
                Some(behaviours) => {
                    let mut boid = self.boids[i];
                    boid.apply_behaviours(
                        behaviours.alignment,
                        behaviours.cohesion,
                        behaviours.seperation,
                    );
                    self.boids[i] = boid;
                },
                None => {},
            }
            i += 1;
        }
        proof {
            lemma_wf_of_models(self.boids@);
            assert(self@ =~= flock_steered(old(self)@));
        }
    }

    /// One tick: all boids move, then the rules give each its next
    /// acceleration, which the next tick's movement takes up.
    pub fn step(&mut self, half_width: i64, half_height: i64)
        requires
            old(self).wf(),
            0 <= half_width <= EXTENT_MAX,
            0 <= half_height <= EXTENT_MAX,
        ensures
            final(self)@ == flock_stepped(old(self)@, half_width as int, half_height as int),
            final(self)@.len() == old(self)@.len(),
            final(self).wf(),
    {
        self.update_boids(half_width, half_height);
        self.apply_all_boid_behaviours();
    }

    /// `ticks` ticks, one after the other, in a world of one size.
    pub fn run(&mut self, half_width: i64, half_height: i64, ticks: usize)
        requires
            old(self).wf(),
            0 <= half_width <= EXTENT_MAX,
            0 <= half_height <= EXTENT_MAX,
        ensures
            final(self)@ == after_ticks(
                old(self)@,
                half_width as int,
                half_height as int,
                ticks as nat,
            ),
            final(self)@.len() == old(self)@.len(),
            final(self).wf(),
    {
        let mut done: usize = 0;
        while done < ticks
            invariant
                done <= ticks,
                0 <= half_width <= EXTENT_MAX,
                0 <= half_height <= EXTENT_MAX,
                self.wf(),
                self@.len() == old(self)@.len(),
                self@ == after_ticks(
                    old(self)@,
                    half_width as int,
                    half_height as int,
                    done as nat,
                ),
            decreases ticks - done,
        {
            self.step(half_width, half_height);
            done += 1;
        }
    }
}

/// The movement of a flock is the movement of each boid by itself: where a
/// boid is after it, and how fast, goes by its own state and the size of the
/// world, not by the other boids nor by their order. The number of boids and
/// their limits are kept, no boid is faster than its speed limit, whatever
/// its velocity and acceleration were, and a boid that was inside the world
/// or on its edge has moved by its velocity and was not wrapped.
pub proof fn lemma_flock_moved(flock: Seq<BoidModel>, half_width: int, half_height: int)
    requires
        all_valid(flock),
        0 <= half_width <= EXTENT_MAX,
        0 <= half_height <= EXTENT_MAX,
    ensures
        flock_moved(flock, half_width, half_height).len() == flock.len(),
        all_valid(flock_moved(flock, half_width, half_height)),
        forall|i: int|
            0 <= i < flock.len() ==> {
                let b = #[trigger] flock_moved(flock, half_width, half_height)[i];
                &&& b == flock[i].moved(half_width, half_height)
                &&& b.vel == flock[i].vel.plus(flock[i].accel).clamp_length_max(flock[i].max_speed)
                &&& b.vel.length_squared() <= b.max_speed * b.max_speed
                &&& -half_width <= flock[i].pos.x <= half_width ==> b.pos.x == flock[i].pos.x
                    + flock[i].vel.x
                &&& -half_height <= flock[i].pos.y <= half_height ==> b.pos.y == flock[i].pos.y
                    + flock[i].vel.y
            },
{
    let moved = flock_moved(flock, half_width, half_height);
    assert forall|i: int| 0 <= i < flock.len() implies {
        let b = #[trigger] moved[i];
        &&& b.valid()
        &&& b.vel.length_squared() <= b.max_speed * b.max_speed
    } by {
        assert(flock[i].valid());
        crate::boid::lemma_moved_valid(flock[i], half_width, half_height);
    }
}

/// A boid that sees no more than one boid of the flock, which is then
/// itself, is left as it is by the rules: it keeps the acceleration that it
/// had.
pub proof fn lemma_lone_boid_is_kept(flock: Seq<BoidModel>, i: int)
    requires
        0 <= i < flock.len(),
        crate::behaviour::neighbours(flock[i], flock).len() <= 1,
    ensures
        flock_steered(flock)[i] == flock[i],
{
}

/// The rules leave a boid within its limits, and change nothing of it but
/// its acceleration.
pub proof fn lemma_steered_by_valid(b: BoidModel, asked: Option<Targets>)
    requires
        b.valid(),
    ensures
        steered_by(b, asked).valid(),
        steered_by(b, asked) == (BoidModel { accel: steered_by(b, asked).accel, ..b }),
{
    if let Some(t) = asked {
        crate::boid::lemma_steered_thrice(b, t.alignment, t.cohesion, t.seperation);
    }
}

/// A tick keeps the number of boids and their limits, and leaves no boid
/// faster than its speed limit, whatever its velocity and acceleration were
/// before.
pub proof fn lemma_flock_stepped(flock: Seq<BoidModel>, half_width: int, half_height: int)
    requires
        all_valid(flock),
        0 <= half_width <= EXTENT_MAX,
        0 <= half_height <= EXTENT_MAX,
    ensures
        flock_stepped(flock, half_width, half_height).len() == flock.len(),
        all_valid(flock_stepped(flock, half_width, half_height)),
        forall|i: int|
            0 <= i < flock.len() ==> {
                let b = #[trigger] flock_stepped(flock, half_width, half_height)[i];
                &&& b.vel.length_squared() <= b.max_speed * b.max_speed
                &&& b.max_speed == flock[i].max_speed
            },
{
    let moved = flock_moved(flock, half_width, half_height);
    let stepped = flock_stepped(flock, half_width, half_height);
    assert forall|i: int| 0 <= i < flock.len() implies {
        let b = #[trigger] stepped[i];
        &&& b.valid()
        &&& b.vel.length_squared() <= b.max_speed * b.max_speed
        &&& b.max_speed == flock[i].max_speed
    } by {
        assert(flock[i].valid());
        crate::boid::lemma_moved_valid(flock[i], half_width, half_height);
        lemma_steered_by_valid(moved[i], targets(moved[i], moved));
    }
}

/// After any number of ticks the flock has as many boids as before, all
/// within their limits; and after one tick or more none is faster than its
/// speed limit.
pub proof fn lemma_after_ticks(
    flock: Seq<BoidModel>,
    half_width: int,
    half_height: int,
    ticks: nat,
)
    requires
        all_valid(flock),
        0 <= half_width <= EXTENT_MAX,
        0 <= half_height <= EXTENT_MAX,
    ensures
        after_ticks(flock, half_width, half_height, ticks).len() == flock.len(),
        all_valid(after_ticks(flock, half_width, half_height, ticks)),
        ticks > 0 ==> forall|i: int|
            0 <= i < flock.len() ==> {
                let b = #[trigger] after_ticks(flock, half_width, half_height, ticks)[i];
                &&& b.vel.length_squared() <= b.max_speed * b.max_speed
                &&& b.max_speed == flock[i].max_speed
            },
    decreases ticks,
{
    if ticks > 0 {
        let before = after_ticks(flock, half_width, half_height, (ticks - 1) as nat);
        lemma_after_ticks(flock, half_width, half_height, (ticks - 1) as nat);
        lemma_flock_stepped(before, half_width, half_height);
        if ticks == 1 {
            assert(before == flock);
        }
    }
}

/// A run is decided by the flock it starts from and the size of the world:
/// two runs of as many ticks from equal flocks end in equal flocks, position
/// for position and velocity for velocity.
pub proof fn lemma_run_is_determined(
    a: Seq<BoidModel>,
    b: Seq<BoidModel>,
    half_width: int,
    half_height: int,
    ticks: nat,
)
    requires
        a == b,
    ensures
        after_ticks(a, half_width, half_height, ticks) == after_ticks(
            b,
            half_width,
            half_height,
            ticks,
        ),
{
}

/// The boids of a sequence are within their limits where what they stand for
/// is.
proof fn lemma_wf_of_models(boids: Seq<Boid>)
    ensures
        all_wf(boids) <==> all_valid(models(boids)),
{
    if all_valid(models(boids)) {
        assert forall|i: int| 0 <= i < boids.len() implies (#[trigger] boids[i]).wf() by {
            assert(models(boids)[i] == boids[i]@);
        }
    }
    if all_wf(boids) {
        assert forall|i: int| 0 <= i < boids.len() implies (#[trigger] models(boids)[i]).valid() by {
            assert(boids[i].wf());
        }
    }
}

/// What was asked, as the contracts speak of it.
spec fn asked_of(asked: Option<Behaviours>) -> Option<Targets> {
    match asked {
        Some(b) => Some(b@),
        None => None,
    }
}

} // verus!
