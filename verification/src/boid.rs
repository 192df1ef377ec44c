//! One boid: its state, how it moves in a tick, and how it is steered.

use crate::scalar::{magnitude_of, UNIT};
use crate::vec2::{lemma_clamp_length_max, lemma_normalize_length, Vec2, Vector};
use vstd::prelude::*;

verus! {

/// No coordinate of a position is further from zero than this.
pub const COORD_MAX: i64 = 1_000_000_000_000_000;

/// No speed limit, and no coordinate of a velocity, is greater than this.
pub const SPEED_MAX: i64 = 1_000_000_000_000;

/// The world reaches at most this far from its centre along each axis, so
/// that a boid that leaves it by one tick's movement still has a position.
pub const EXTENT_MAX: i64 = 999_000_000_000_000;

/// No vision or separation radius is greater than this.
pub const RADIUS_MAX: i64 = 1_000_000_000_000;

/// No limit on a steering force is greater than this.
pub const STEERING_MAX: i64 = 1_000_000_000_000;

/// No coordinate of an acceleration is further from zero than this.
pub const ACCEL_MAX: i64 = 1_000_000_000_000_000_000;

/// How far a new boid sees.
pub const DEFAULT_VISION: i64 = 100_000_000;

/// Within what distance a new boid avoids its neighbours.
pub const DEFAULT_SEPERATION_VISION: i64 = 75_000_000;

/// The steering limit of a new boid.
pub const DEFAULT_MAX_STEERING: i64 = 200_000;

/// The speed limit of a new boid.
pub const DEFAULT_MAX_SPEED: i64 = 5_000_000;

/// A new boid is at least this fast.
pub const INITIAL_SPEED_MIN: i64 = 2_000_000;

/// No coordinate of a first velocity is drawn further from zero than this.
pub const DRAW_OFFSET_MAX: i64 = 1_500_000;

/// What a `Boid` stands for in contracts.
pub struct BoidModel {
    pub pos: Vector,
    pub vel: Vector,
    pub accel: Vector,
    pub vision: int,
    pub max_steering: int,
    pub max_speed: int,
    pub seperation_vision: int,
}

/// Where a coordinate is after one tick: a boid that was beyond an edge
/// before the move comes back in at the opposite edge, any other moves by its
/// velocity.
pub open spec fn wrap_axis(p: int, v: int, half: int) -> int {
    if p > half {
        -half
    } else if p < -half {
        half
    } else {
        p + v
    }
}

/// One coordinate of a first velocity, from 32 random bits: the upper 24 of
/// them as a fraction of one unit, less half a unit, times three.
pub open spec fn draw_offset(bits: u32) -> int {
    ((bits as int / 256) * UNIT / 0x100_0000 - UNIT / 2) * 3
}

/// The first velocity of a boid, from two draws of 32 random bits: the two
/// offsets, lengthened to the least initial speed where they fall short.
pub open spec fn initial_velocity(bits_x: u32, bits_y: u32) -> Vector {
    (Vector { x: draw_offset(bits_x), y: draw_offset(bits_y) }).clamp_length_min(
        INITIAL_SPEED_MIN as int,
    )
}

impl BoidModel {
    /// A new boid at `pos`, with the velocity that the two draws give, no
    /// acceleration and the default parameters.
    pub open spec fn spawned(pos: Vector, bits_x: u32, bits_y: u32) -> BoidModel {
        BoidModel {
            pos,
            vel: initial_velocity(bits_x, bits_y),
            accel: Vector::zero(),
            vision: DEFAULT_VISION as int,
            max_steering: DEFAULT_MAX_STEERING as int,
            max_speed: DEFAULT_MAX_SPEED as int,
            seperation_vision: DEFAULT_SEPERATION_VISION as int,
        }
    }

    /// The limits that keep every computation on a boid within 64 bits.
    pub open spec fn valid(self) -> bool {
        &&& magnitude_of(self.pos.x) <= COORD_MAX
        &&& magnitude_of(self.pos.y) <= COORD_MAX
        &&& magnitude_of(self.vel.x) <= SPEED_MAX
        &&& magnitude_of(self.vel.y) <= SPEED_MAX
        &&& magnitude_of(self.accel.x) <= ACCEL_MAX
        &&& magnitude_of(self.accel.y) <= ACCEL_MAX
        &&& 0 <= self.vision <= RADIUS_MAX
        &&& 0 <= self.seperation_vision <= RADIUS_MAX
        &&& 0 <= self.max_speed <= SPEED_MAX
        &&& 0 <= self.max_steering <= STEERING_MAX
    }

    /// The boid after one tick of movement in a world that reaches
    /// `half_width` and `half_height` from its centre: the position moves by
    /// the velocity and wraps, then the velocity takes up the acceleration
    /// and is capped at the speed limit.
    pub open spec fn moved(self, half_width: int, half_height: int) -> BoidModel {
        BoidModel {
            pos: Vector {
                x: wrap_axis(self.pos.x, self.vel.x, half_width),
                y: wrap_axis(self.pos.y, self.vel.y, half_height),
            },
            vel: self.vel.plus(self.accel).clamp_length_max(self.max_speed),
            ..self
        }
    }

    /// The force that turns the boid toward `desired`: the difference between
    /// full speed in that direction and the present velocity, capped at the
    /// steering limit.
    pub open spec fn steering(self, desired: Vector) -> Vector {
        desired.normalize_or_zero().times(self.max_speed).minus(self.vel).clamp_length_max(
            self.max_steering,
        )
    }

    /// The boid with the steering force toward `desired` added to its
    /// acceleration.
    pub open spec fn steered(self, desired: Vector) -> BoidModel {
        BoidModel { accel: self.accel.plus(self.steering(desired)), ..self }
    }

    /// The boid with its acceleration set to nothing.
    pub open spec fn at_rest(self) -> BoidModel {
        BoidModel { accel: Vector::zero(), ..self }
    }
}

/// A boid of the flock.
#[derive(Clone, Copy, Debug, PartialEq, Eq, Structural)]
pub struct Boid {
    pos: Vec2,
    vel: Vec2,
    accel: Vec2,
    vision: i64,
    max_steering: i64,
    max_speed: i64,
    seperation_vision: i64,
}

impl View for Boid {
    type V = BoidModel;

    closed spec fn view(&self) -> BoidModel {
        BoidModel {
            pos: self.pos@,
            vel: self.vel@,
            accel: self.accel@,
            vision: self.vision as int,
            max_steering: self.max_steering as int,
            max_speed: self.max_speed as int,
            seperation_vision: self.seperation_vision as int,
        }
    }
}

/// Whether `v` lies within `limit` of zero.
fn within(v: i64, limit: i64) -> (b: bool)
    requires
        limit >= 0,
    ensures
        b == (magnitude_of(v as int) <= limit),
{
    -limit <= v && v <= limit
}

/// The coordinate after one tick, as `wrap_axis` defines it.
pub fn wrapped(p: i64, v: i64, half: i64) -> (r: i64)
    requires
        magnitude_of(p as int) <= COORD_MAX,
        magnitude_of(v as int) <= SPEED_MAX,
        0 <= half <= EXTENT_MAX,
    ensures
        r == wrap_axis(p as int, v as int, half as int),
        p > half ==> r == -half,
        p < -half ==> r == half,
        -half <= p <= half ==> r == p + v,
        magnitude_of(r as int) <= COORD_MAX,
{
    if p > half {
        -half
    } else if p < -half {
        half
    } else {
        p + v
    }
}

/// Thirty-two bits from `rand::random`, which draws them from the thread's
/// generator. Nothing is claimed of them: every value can come. The call
/// panics only where the operating system fails that generator: where it
/// gives no seed when the thread first draws, none when the generator is
/// seeded anew, or refuses to register the handler that seeds it anew after
/// a fork.
#[verifier::external_body]
fn random_bits() -> (bits: u32) {
    rand::random::<u32>()
}

/// One coordinate of a first velocity, as `draw_offset` defines it.
fn offset_of(bits: u32) -> (r: i64)
    ensures
        r == draw_offset(bits),
        magnitude_of(r as int) <= DRAW_OFFSET_MAX,
{
    let fraction: i64 = (bits / 256) as i64;
    (fraction * UNIT / 0x100_0000 - UNIT / 2) * 3
}

/// A first velocity is no slower than the least initial speed, and no faster
/// than the two greatest offsets together make it, which is well below the
/// default speed limit: where the draws fell short of the least initial
/// speed, it passes that by less than three millionths; else it is what was
/// drawn. Unless both offsets are zero, each coordinate has the sign of its
/// offset.
pub proof fn lemma_initial_velocity_bounds(bits_x: u32, bits_y: u32)
    ensures
        magnitude_of(draw_offset(bits_x)) <= DRAW_OFFSET_MAX,
        magnitude_of(draw_offset(bits_y)) <= DRAW_OFFSET_MAX,
        initial_velocity(bits_x, bits_y).length_squared() >= INITIAL_SPEED_MIN * INITIAL_SPEED_MIN,
        initial_velocity(bits_x, bits_y).length_squared() <= 2 * (DRAW_OFFSET_MAX
            * DRAW_OFFSET_MAX),
        2 * (DRAW_OFFSET_MAX * DRAW_OFFSET_MAX) < DEFAULT_MAX_SPEED * DEFAULT_MAX_SPEED,
        (Vector { x: draw_offset(bits_x), y: draw_offset(bits_y) }).length_squared()
            < INITIAL_SPEED_MIN * INITIAL_SPEED_MIN ==> initial_velocity(
            bits_x,
            bits_y,
        ).length_squared() <= (INITIAL_SPEED_MIN + 3) * (INITIAL_SPEED_MIN + 3),
        (Vector { x: draw_offset(bits_x), y: draw_offset(bits_y) }).length_squared()
            >= INITIAL_SPEED_MIN * INITIAL_SPEED_MIN ==> initial_velocity(bits_x, bits_y) == (
        Vector { x: draw_offset(bits_x), y: draw_offset(bits_y) }),
        magnitude_of(initial_velocity(bits_x, bits_y).x) <= INITIAL_SPEED_MIN,
        magnitude_of(initial_velocity(bits_x, bits_y).y) <= INITIAL_SPEED_MIN,
        draw_offset(bits_x) != 0 || draw_offset(bits_y) != 0 ==> {
            &&& draw_offset(bits_x) >= 0 ==> initial_velocity(bits_x, bits_y).x >= 0
            &&& draw_offset(bits_x) <= 0 ==> initial_velocity(bits_x, bits_y).x <= 0
            &&& draw_offset(bits_y) >= 0 ==> initial_velocity(bits_x, bits_y).y >= 0
            &&& draw_offset(bits_y) <= 0 ==> initial_velocity(bits_x, bits_y).y <= 0
        },
{
    let drawn = Vector { x: draw_offset(bits_x), y: draw_offset(bits_y) };
    crate::vec2::lemma_length_squared_sign(drawn);
    let v = initial_velocity(bits_x, bits_y);
    crate::vec2::lemma_clamp_length_min(drawn, INITIAL_SPEED_MIN as int);
    crate::scalar::lemma_magnitude_square(drawn.x);
    crate::scalar::lemma_magnitude_square(drawn.y);
    crate::scalar::lemma_square_monotone(magnitude_of(drawn.x), DRAW_OFFSET_MAX as int);
    crate::scalar::lemma_square_monotone(magnitude_of(drawn.y), DRAW_OFFSET_MAX as int);
    assert(INITIAL_SPEED_MIN * INITIAL_SPEED_MIN == 4_000_000_000_000) by (nonlinear_arith);
    assert((INITIAL_SPEED_MIN + 3) * (INITIAL_SPEED_MIN + 3) == 4_000_012_000_009)
        by (nonlinear_arith);
    assert(DRAW_OFFSET_MAX * DRAW_OFFSET_MAX == 2_250_000_000_000) by (nonlinear_arith);
    assert(DEFAULT_MAX_SPEED * DEFAULT_MAX_SPEED == 25_000_000_000_000) by (nonlinear_arith);
}

impl Boid {
    /// A new boid at `pos`, with a random velocity that is neither zero nor
    /// beyond the speed limit, no acceleration and the default parameters.
    pub fn new(pos: Vec2) -> (boid: Boid)
        requires
            magnitude_of(pos.x as int) <= COORD_MAX,
            magnitude_of(pos.y as int) <= COORD_MAX,
        ensures
            exists|bits_x: u32, bits_y: u32| boid@ == BoidModel::spawned(pos@, bits_x, bits_y),
            boid.wf(),
            boid@.pos == pos@,
            boid@.accel == Vector::zero(),
            boid@.vision == DEFAULT_VISION,
            boid@.seperation_vision == DEFAULT_SEPERATION_VISION,
            boid@.max_steering == DEFAULT_MAX_STEERING,
            boid@.max_speed == DEFAULT_MAX_SPEED,
            INITIAL_SPEED_MIN * INITIAL_SPEED_MIN <= boid@.vel.length_squared() <= 2 * (
            DRAW_OFFSET_MAX * DRAW_OFFSET_MAX),
            boid@.vel.length_squared() < boid@.max_speed * boid@.max_speed,
    {
        let bits_x: u32 = random_bits();
        let bits_y: u32 = random_bits();
        Boid::from_draws(pos, bits_x, bits_y)
    }

    /// The new boid at `pos` whose velocity comes from the two given draws.
    pub fn from_draws(pos: Vec2, bits_x: u32, bits_y: u32) -> (boid: Boid)
        requires
            magnitude_of(pos.x as int) <= COORD_MAX,
            magnitude_of(pos.y as int) <= COORD_MAX,
        ensures
            boid@ == BoidModel::spawned(pos@, bits_x, bits_y),
            boid.wf(),
            INITIAL_SPEED_MIN * INITIAL_SPEED_MIN <= boid@.vel.length_squared() <= 2 * (
            DRAW_OFFSET_MAX * DRAW_OFFSET_MAX),
            boid@.vel.length_squared() < boid@.max_speed * boid@.max_speed,
    {
        let drawn = Vec2 { x: offset_of(bits_x), y: offset_of(bits_y) };
        proof {
            lemma_initial_velocity_bounds(bits_x, bits_y);
        }
        Boid {
            pos,
            vel: drawn.clamp_length_min(INITIAL_SPEED_MIN),
            accel: Vec2 { x: 0, y: 0 },
            vision: DEFAULT_VISION,
            max_steering: DEFAULT_MAX_STEERING,
            max_speed: DEFAULT_MAX_SPEED,
            seperation_vision: DEFAULT_SEPERATION_VISION,
        }
    }

    /// The limits of `BoidModel::valid` hold of this boid.
    pub open spec fn wf(&self) -> bool {
        self@.valid()
    }

    /// A boid with the given state and parameters and no acceleration, where
    /// they are within the limits.
    pub fn with_params(
        pos: Vec2,
        vel: Vec2,
        vision: i64,
        seperation_vision: i64,
        max_steering: i64,
        max_speed: i64,
    ) -> (made: Option<Boid>)
        ensures
            made.is_some() <==> (BoidModel {
                pos: pos@,
                vel: vel@,
                accel: Vector::zero(),
                vision: vision as int,
                max_steering: max_steering as int,
                max_speed: max_speed as int,
                seperation_vision: seperation_vision as int,
            }).valid(),
            made.is_some() ==> made.unwrap()@ == (BoidModel {
                pos: pos@,
                vel: vel@,
                accel: Vector::zero(),
                vision: vision as int,
                max_steering: max_steering as int,
                max_speed: max_speed as int,
                seperation_vision: seperation_vision as int,
            }),
    {
        if within(pos.x, COORD_MAX) && within(pos.y, COORD_MAX) && within(vel.x, SPEED_MAX)
            && within(vel.y, SPEED_MAX) && 0 <= vision && vision <= RADIUS_MAX && 0
            <= seperation_vision && seperation_vision <= RADIUS_MAX && 0 <= max_speed && max_speed
            <= SPEED_MAX && 0 <= max_steering && max_steering <= STEERING_MAX {
            Some(
                Boid {
                    pos,
                    vel,
                    accel: Vec2 { x: 0, y: 0 },
                    vision,
                    max_steering,
                    max_speed,
                    seperation_vision,
                },
            )
        } else {
            None
        }
    }

    pub fn position(&self) -> (p: Vec2)
        ensures
            p@ == self@.pos,
    {
        self.pos
    }

    pub fn velocity(&self) -> (v: Vec2)
        ensures
            v@ == self@.vel,
    {
        self.vel
    }

    pub fn acceleration(&self) -> (a: Vec2)
        ensures
            a@ == self@.accel,
    {
        self.accel
    }

    pub fn vision(&self) -> (r: i64)
        ensures
            r == self@.vision,
    {
        self.vision
    }

    pub fn seperation_vision(&self) -> (r: i64)
        ensures
            r == self@.seperation_vision,
    {
        self.seperation_vision
    }

    pub fn max_speed(&self) -> (r: i64)
        ensures
            r == self@.max_speed,
    {
        self.max_speed
    }

    pub fn max_steering(&self) -> (r: i64)
        ensures
            r == self@.max_steering,
    {
        self.max_steering
    }

    /// One tick of movement: the position moves by the velocity and wraps at
    /// the edges of the world, then the velocity takes up the acceleration
    /// and is capped at the speed limit.
    pub fn update(&mut self, half_width: i64, half_height: i64)
        requires
            old(self).wf(),
            0 <= half_width <= EXTENT_MAX,
            0 <= half_height <= EXTENT_MAX,
        ensures
            final(self)@ == old(self)@.moved(half_width as int, half_height as int),
            final(self).wf(),
            final(self)@.vel.length_squared() <= final(self)@.max_speed * final(self)@.max_speed,
            magnitude_of(final(self)@.pos.x) <= half_width + magnitude_of(old(self)@.vel.x),
            magnitude_of(final(self)@.pos.y) <= half_height + magnitude_of(old(self)@.vel.y),
    {
        proof {
            lemma_moved_valid(self@, half_width as int, half_height as int);
        }
        self.pos = Vec2 {
            x: wrapped(self.pos.x, self.vel.x, half_width),
            y: wrapped(self.pos.y, self.vel.y, half_height),
        };
        let pushed = Vec2 { x: self.vel.x + self.accel.x, y: self.vel.y + self.accel.y };
        self.vel = pushed.clamp_length_max(self.max_speed);
    }

    /// Adds to the acceleration the force that turns the boid toward
    /// `force`, which need not be of any particular length.
    pub fn apply_steering_force(&mut self, force: Vec2)
        requires
            old(self).wf(),
            magnitude_of(old(self)@.accel.x) + old(self)@.max_steering <= ACCEL_MAX,
            magnitude_of(old(self)@.accel.y) + old(self)@.max_steering <= ACCEL_MAX,
        ensures
            final(self)@ == old(self)@.steered(force@),
            final(self).wf(),
            final(self)@.accel.minus(old(self)@.accel).length_squared() <= old(self)@.max_steering
                * old(self)@.max_steering,
            magnitude_of(final(self)@.accel.x) <= magnitude_of(old(self)@.accel.x) + old(
                self,
            )@.max_steering,
            magnitude_of(final(self)@.accel.y) <= magnitude_of(old(self)@.accel.y) + old(
                self,
            )@.max_steering,
    {
        let direction = force.normalize_or_zero();
        proof {
            lemma_steering_bounded(self@, force@);
            lemma_normalize_length(force@);
            crate::scalar::lemma_toward_zero_bounds(
                direction.x as int,
                self.max_speed as int,
                UNIT as int,
            );
            crate::scalar::lemma_toward_zero_bounds(
                direction.y as int,
                self.max_speed as int,
                UNIT as int,
            );
        }
        let full = direction.times(self.max_speed);
        let wanted = Vec2 { x: full.x - self.vel.x, y: full.y - self.vel.y };
        let steer = wanted.clamp_length_max(self.max_steering);
        self.accel = Vec2 { x: self.accel.x + steer.x, y: self.accel.y + steer.y };
    }

    /// Replaces the acceleration by the sum of the steering forces toward
    /// the three targets that the flocking rules gave.
    pub fn apply_behaviours(&mut self, alignment: Vec2, cohesion: Vec2, seperation: Vec2)
        requires
            old(self).wf(),
        ensures
            final(self)@ == old(self)@.at_rest().steered(alignment@).steered(cohesion@).steered(
                seperation@,
            ),
            final(self).wf(),
    {
        self.accel = Vec2 { x: 0, y: 0 };
        self.apply_steering_force(alignment);
        self.apply_steering_force(cohesion);
        self.apply_steering_force(seperation);
    }
}

/// A steering force is no longer than the boid's steering limit, and what a
/// call adds to the acceleration is that force.
pub proof fn lemma_steering_bounded(b: BoidModel, desired: Vector)
    requires
        b.max_steering >= 0,
    ensures
        b.steering(desired).length_squared() <= b.max_steering * b.max_steering,
        magnitude_of(b.steering(desired).x) <= b.max_steering,
        magnitude_of(b.steering(desired).y) <= b.max_steering,
        b.steered(desired).accel.minus(b.accel) == b.steering(desired),
{
    lemma_clamp_length_max(
        desired.normalize_or_zero().times(b.max_speed).minus(b.vel),
        b.max_steering,
    );
}

/// A steering force goes by the direction of what is desired and not by its
/// length: a desired vector shorter than one unit steers as the same vector
/// stretched by `UNIT` does.
pub proof fn lemma_steering_magnified(b: BoidModel, desired: Vector)
    ensures
        b.steering(desired) == b.steering(desired.magnified()),
        b.steered(desired) == b.steered(desired.magnified()),
{
    crate::vec2::lemma_normalize_magnified(desired);
}

/// The wrap at the edges of a world that reaches `half` from its centre: a
/// coordinate beyond the far edge comes back at the near edge, one beyond
/// the near edge at the far edge, whatever the velocity; one inside the
/// world, or on an edge, moves by the velocity and is not wrapped. After the
/// tick no coordinate is further outside the world than one tick's movement.
pub proof fn lemma_wrap_axis(p: int, v: int, half: int)
    requires
        half >= 0,
    ensures
        p > half ==> wrap_axis(p, v, half) == -half,
        p < -half ==> wrap_axis(p, v, half) == half,
        -half <= p <= half ==> wrap_axis(p, v, half) == p + v,
        magnitude_of(wrap_axis(p, v, half)) <= half + magnitude_of(v),
{
}

/// The rules change nothing of a boid but its acceleration, and leave no
/// coordinate of that further from zero than three steering forces reach.
pub proof fn lemma_steered_thrice(b: BoidModel, first: Vector, second: Vector, third: Vector)
    requires
        b.valid(),
    ensures
        b.at_rest().steered(first).steered(second).steered(third).valid(),
        b.at_rest().steered(first).steered(second).steered(third) == (BoidModel {
            accel: b.at_rest().steered(first).steered(second).steered(third).accel,
            ..b
        }),
        magnitude_of(b.at_rest().steered(first).steered(second).steered(third).accel.x) <= 3
            * b.max_steering,
        magnitude_of(b.at_rest().steered(first).steered(second).steered(third).accel.y) <= 3
            * b.max_steering,
{
    let b0 = b.at_rest();
    let b1 = b0.steered(first);
    let b2 = b1.steered(second);
    lemma_steering_bounded(b0, first);
    lemma_steering_bounded(b1, second);
    lemma_steering_bounded(b2, third);
}

/// A tick of movement keeps a boid within its limits, leaves it no faster
/// than its speed limit, whatever its acceleration was, and no further
/// outside the world than it moved.
pub proof fn lemma_moved_valid(b: BoidModel, half_width: int, half_height: int)
    requires
        b.valid(),
        0 <= half_width <= EXTENT_MAX,
        0 <= half_height <= EXTENT_MAX,
    ensures
        b.moved(half_width, half_height).valid(),
        b.moved(half_width, half_height).vel.length_squared() <= b.max_speed * b.max_speed,
        magnitude_of(b.moved(half_width, half_height).pos.x) <= half_width + magnitude_of(b.vel.x),
        magnitude_of(b.moved(half_width, half_height).pos.y) <= half_height + magnitude_of(
            b.vel.y,
        ),
{
    lemma_clamp_length_max(b.vel.plus(b.accel), b.max_speed);
}

} // verus!
