//! What a boid sees of the flock, and the three rules that say where it
//! should head: with its neighbours, toward them, and away from the closest.

use crate::boid::{Boid, BoidModel, COORD_MAX, RADIUS_MAX};
use crate::scalar::{div_toward_zero, magnitude_of, UNIT};
use crate::vec2::{Vec2, Vector};
use vstd::prelude::*;

verus! {

/// What each boid of a sequence stands for.
pub open spec fn models(boids: Seq<Boid>) -> Seq<BoidModel> {
    boids.map_values(|b: Boid| b@)
}

/// Every boid of the sequence is within its limits.
pub open spec fn all_wf(boids: Seq<Boid>) -> bool {
    forall|i: int| 0 <= i < boids.len() ==> (#[trigger] boids[i]).wf()
}

/// `other` lies within the vision radius of `subject`: the radius of the one
/// that looks decides, not that of the one that is seen.
pub open spec fn sees(subject: BoidModel, other: BoidModel) -> bool {
    other.pos.minus(subject.pos).length_squared() <= subject.vision * subject.vision
}

/// The boids of `flock` that `subject` sees, in their order; `subject` itself
/// is one of them where it is in `flock`.
pub open spec fn neighbours(subject: BoidModel, flock: Seq<BoidModel>) -> Seq<BoidModel> {
    flock.filter(|other: BoidModel| sees(subject, other))
}

/// The vector from `from` to `to`.
fn offset(from: Vec2, to: Vec2) -> (d: Vec2)
    requires
        magnitude_of(from.x as int) <= COORD_MAX,
        magnitude_of(from.y as int) <= COORD_MAX,
        magnitude_of(to.x as int) <= COORD_MAX,
        magnitude_of(to.y as int) <= COORD_MAX,
    ensures
        d@ == to@.minus(from@),
        magnitude_of(d.x as int) <= 2 * COORD_MAX,
        magnitude_of(d.y as int) <= 2 * COORD_MAX,
{
    Vec2 { x: to.x - from.x, y: to.y - from.y }
}

/// The square of a radius.
fn squared(radius: i64) -> (s: u128)
    requires
        0 <= radius <= RADIUS_MAX,
    ensures
        s == radius * radius,
{
    let r: u128 = radius as u128;
    assert(r * r <= 1_000_000_000_000_000_000_000_000) by (nonlinear_arith)
        requires
            0 <= r <= 1_000_000_000_000,
    ;
    r * r
}

/// Whether `boid` sees `other`, by the squares of distance and radius.
pub fn in_vision(boid: &Boid, other: &Boid) -> (seen: bool)
    requires
        boid.wf(),
        other.wf(),
    ensures
        seen == sees(boid@, other@),
{
    let d = offset(boid.position(), other.position());
    d.length_squared() <= squared(boid.vision())
}

/// The boids of `other_boids` that `boid` sees, in their order.
pub fn collect_intersections(boid: &Boid, other_boids: &Vec<Boid>) -> (collected_boids: Vec<Boid>)
    requires
        boid.wf(),
        all_wf(other_boids@),
    ensures
        models(collected_boids@) == neighbours(boid@, models(other_boids@)),
        all_wf(collected_boids@),
        collected_boids.len() <= other_boids.len(),
{
    let mut collected_boids: Vec<Boid> = Vec::new();
    let ghost pred = |other: BoidModel| sees(boid@, other);
    let mut i: usize = 0;
    proof {
        reveal(Seq::filter);
        assert(models(other_boids@.take(0)) =~= Seq::<BoidModel>::empty());
        assert(models(collected_boids@) =~= Seq::<BoidModel>::empty());
    }
    while i < other_boids.len()
        invariant
            i <= other_boids.len(),
            boid.wf(),
            all_wf(other_boids@),
            all_wf(collected_boids@),
            collected_boids.len() <= i,
            pred == (|other: BoidModel| sees(boid@, other)),
            models(collected_boids@) == models(other_boids@.take(i as int)).filter(pred),
        decreases other_boids.len() - i,
    {
        let other = other_boids[i];
        proof {
            let before = models(other_boids@.take(i as int));
            assert(models(other_boids@.take(i + 1)) =~= before.push(other@));
            before.lemma_filter_push(other@, pred);
            assert(models(collected_boids@.push(other)) =~= models(collected_boids@).push(other@));
        }
        if in_vision(boid, &other) {
            collected_boids.push(other);
        }
        i += 1;
    }
    proof {
        assert(other_boids@.take(i as int) =~= other_boids@);
    }
    collected_boids
}

/// The sum of the vectors of a sequence.
pub open spec fn vector_sum(vs: Seq<Vector>) -> Vector
    decreases vs.len(),
{
    if vs.len() == 0 {
        Vector::zero()
    } else {
        vector_sum(vs.drop_last()).plus(vs.last())
    }
}

/// The direction in which each boid flies.
pub open spec fn headings(flock: Seq<BoidModel>) -> Seq<Vector> {
    flock.map_values(|b: BoidModel| b.vel.normalize_or_zero())
}

/// Where each boid is.
pub open spec fn positions(flock: Seq<BoidModel>) -> Seq<Vector> {
    flock.map_values(|b: BoidModel| b.pos)
}

/// The mean of the directions in which the boids fly: each counts alike,
/// however fast it is.
pub open spec fn alignment(seen: Seq<BoidModel>) -> Vector {
    vector_sum(headings(seen)).divided_by(seen.len() as int)
}

/// The vector from `pos` to the centre of the boids.
pub open spec fn cohesion(pos: Vector, seen: Seq<BoidModel>) -> Vector {
    vector_sum(positions(seen)).divided_by(seen.len() as int).minus(pos)
}

/// The sum of a sequence with one more vector is the sum of the sequence
/// plus that vector.
pub proof fn lemma_vector_sum_push(vs: Seq<Vector>, v: Vector)
    ensures
        vector_sum(vs.push(v)) == vector_sum(vs).plus(v),
{
    assert(vs.push(v).drop_last() =~= vs);
}

/// The target of the alignment rule for a boid that sees `boids_in_vision`.
pub fn boid_behaviour_alignment(boids_in_vision: &Vec<Boid>) -> (avg_direction: Vec2)
    requires
        boids_in_vision.len() > 0,
        all_wf(boids_in_vision@),
    ensures
        avg_direction@ == alignment(models(boids_in_vision@)),
        magnitude_of(avg_direction.x as int) <= UNIT,
        magnitude_of(avg_direction.y as int) <= UNIT,
{
    let n: usize = boids_in_vision.len();
    let mut sum_x: i128 = 0;
    let mut sum_y: i128 = 0;
    let mut i: usize = 0;
    proof {
        assert(headings(models(boids_in_vision@.take(0))) =~= Seq::<Vector>::empty());
    }
    while i < n
        invariant
            i <= n == boids_in_vision.len(),
            all_wf(boids_in_vision@),
            (Vector { x: sum_x as int, y: sum_y as int }) == vector_sum(
                headings(models(boids_in_vision@.take(i as int))),
            ),
            magnitude_of(sum_x as int) <= i * UNIT,
            magnitude_of(sum_y as int) <= i * UNIT,
        decreases n - i,
    {
        let direction = boids_in_vision[i].velocity().normalize_or_zero();
        proof {
            let before = headings(models(boids_in_vision@.take(i as int)));
            assert(headings(models(boids_in_vision@.take(i + 1))) =~= before.push(direction@));
            lemma_vector_sum_push(before, direction@);
        }
        sum_x = sum_x + direction.x as i128;
        sum_y = sum_y + direction.y as i128;
        i += 1;
    }
    proof {
        assert(boids_in_vision@.take(i as int) =~= boids_in_vision@);
        lemma_share_within(sum_x as int, n as int, UNIT as int);
        lemma_share_within(sum_y as int, n as int, UNIT as int);
    }
    Vec2 {
        x: crate::scalar::share_toward_zero(sum_x, n),
        y: crate::scalar::share_toward_zero(sum_y, n),
    }
}

/// The target of the cohesion rule for a boid at `boid_pos` that sees
/// `boids_in_vision`.
pub fn boid_behaviour_cohesion(boid_pos: Vec2, boids_in_vision: &Vec<Boid>) -> (pull: Vec2)
    requires
        boids_in_vision.len() > 0,
        all_wf(boids_in_vision@),
        magnitude_of(boid_pos.x as int) <= COORD_MAX,
        magnitude_of(boid_pos.y as int) <= COORD_MAX,
    ensures
        pull@ == cohesion(boid_pos@, models(boids_in_vision@)),
        magnitude_of(pull.x as int) <= 2 * COORD_MAX,
        magnitude_of(pull.y as int) <= 2 * COORD_MAX,
{
    let n: usize = boids_in_vision.len();
    let mut sum_x: i128 = 0;
    let mut sum_y: i128 = 0;
    let mut i: usize = 0;
    proof {
        assert(positions(models(boids_in_vision@.take(0))) =~= Seq::<Vector>::empty());
    }
    while i < n
        invariant
            i <= n == boids_in_vision.len(),
            all_wf(boids_in_vision@),
            (Vector { x: sum_x as int, y: sum_y as int }) == vector_sum(
                positions(models(boids_in_vision@.take(i as int))),
            ),
            magnitude_of(sum_x as int) <= i * COORD_MAX,
            magnitude_of(sum_y as int) <= i * COORD_MAX,
        decreases n - i,
    {
        let pos = boids_in_vision[i].position();
        proof {
            let before = positions(models(boids_in_vision@.take(i as int)));
            assert(positions(models(boids_in_vision@.take(i + 1))) =~= before.push(pos@));
            lemma_vector_sum_push(before, pos@);
            assert(boids_in_vision@[i as int].wf());
        }
        sum_x = sum_x + pos.x as i128;
        sum_y = sum_y + pos.y as i128;
        i += 1;
    }
    proof {
        assert(boids_in_vision@.take(i as int) =~= boids_in_vision@);
        lemma_share_within(sum_x as int, n as int, COORD_MAX as int);
        lemma_share_within(sum_y as int, n as int, COORD_MAX as int);
    }
    let centre = Vec2 {
        x: crate::scalar::share_toward_zero(sum_x, n),
        y: crate::scalar::share_toward_zero(sum_y, n),
    };
    offset(boid_pos, centre)
}

/// No push of the separation rule has a coordinate further from zero than
/// this: the greatest radius times one unit.
pub const PUSH_MAX: i64 = 1_000_000_000_000_000_000;

/// `other` crowds `subject`: it is elsewhere, and closer than the separation
/// radius of `subject`.
pub open spec fn crowds(subject: BoidModel, other: BoidModel) -> bool {
    &&& other.pos != subject.pos
    &&& other.pos.minus(subject.pos).length_squared() < subject.seperation_vision
        * subject.seperation_vision
}

/// The push that `other` gives `subject`: away from `other`, the stronger the
/// closer it is, and in proportion to the vision radius of `subject`. The
/// distance of a boid closer than one unit is taken as finely as its
/// direction is.
pub open spec fn repulsion(subject: BoidModel, other: BoidModel) -> Vector {
    let away = other.pos.minus(subject.pos);
    away.normalize_or_zero().scaled_toward_zero(
        subject.vision * away.magnification(),
        away.magnified().length(),
    ).negated()
}

/// The pushes that `subject` gets from those of `seen` that crowd it.
pub open spec fn repulsions(subject: BoidModel, seen: Seq<BoidModel>) -> Seq<Vector> {
    seen.filter(|other: BoidModel| crowds(subject, other)).map_values(
        |other: BoidModel| repulsion(subject, other),
    )
}

/// The mean of the pushes, or nothing where no boid crowds `subject`.
pub open spec fn seperation(subject: BoidModel, seen: Seq<BoidModel>) -> Vector {
    let pushes = repulsions(subject, seen);
    if pushes.len() == 0 {
        Vector::zero()
    } else {
        vector_sum(pushes).divided_by(pushes.len() as int)
    }
}

/// The pushes from a sequence with one more boid: one more push where that
/// boid crowds the subject, else the same.
pub proof fn lemma_repulsions_push(subject: BoidModel, seen: Seq<BoidModel>, other: BoidModel)
    ensures
        repulsions(subject, seen.push(other)) == if crowds(subject, other) {
            repulsions(subject, seen).push(repulsion(subject, other))
        } else {
            repulsions(subject, seen)
        },
{
    let pred = |o: BoidModel| crowds(subject, o);
    let push = |o: BoidModel| repulsion(subject, o);
    seen.lemma_filter_push(other, pred);
    if crowds(subject, other) {
        assert(seen.filter(pred).push(other).map_values(push) =~= seen.filter(pred).map_values(
            push,
        ).push(repulsion(subject, other)));
    }
}

/// The push away from a boid at `away` from the subject, which is not zero.
fn push_from(away: Vec2, vision: i64) -> (push: Vec2)
    requires
        0 <= vision <= RADIUS_MAX,
        away@ != Vector::zero(),
    ensures
        push@ == away@.normalize_or_zero().scaled_toward_zero(
            vision * away@.magnification(),
            away@.magnified().length(),
        ).negated(),
        magnitude_of(push.x as int) <= PUSH_MAX,
        magnitude_of(push.y as int) <= PUSH_MAX,
{
    let scale: i64 = away.magnification();
    let len: u128 = away.magnified().length();
    let direction = away.normalize_or_zero();
    proof {
        crate::vec2::lemma_length_squared_sign(away@);
        crate::vec2::lemma_magnified(away@);
        lemma_push_within(direction.x as int, vision as int, scale as int, len as int);
        lemma_push_within(direction.y as int, vision as int, scale as int, len as int);
    }
    let toward_x: i64 = crate::scalar::mul_div_toward_zero(direction.x, vision * scale, len);
    let toward_y: i64 = crate::scalar::mul_div_toward_zero(direction.y, vision * scale, len);
    Vec2 { x: -toward_x, y: -toward_y }
}

/// A coordinate of a direction, times a radius magnified by `scale`, over a
/// length of at least `scale`, stays within the greatest push.
proof fn lemma_push_within(a: int, vision: int, scale: int, len: int)
    requires
        magnitude_of(a) <= UNIT,
        0 <= vision <= RADIUS_MAX,
        1 <= scale <= UNIT,
        scale <= len,
    ensures
        0 <= vision * scale <= PUSH_MAX,
        magnitude_of(a) * (vision * scale) / len <= PUSH_MAX,
        magnitude_of(div_toward_zero(a * (vision * scale), len)) <= PUSH_MAX,
{
    let m = magnitude_of(a);
    let p = m * vision;
    let num = vision * scale;
    assert(0 <= p <= PUSH_MAX && 0 <= num <= PUSH_MAX && m * num == p * scale && 0 <= p * scale
        <= p * len) by (nonlinear_arith)
        requires
            p == m * vision,
            num == vision * scale,
            0 <= m <= 1_000_000,
            0 <= vision <= 1_000_000_000_000,
            1 <= scale <= 1_000_000,
            scale <= len,
    ;
    let q = (m * num) / len;
    vstd::arithmetic::div_mod::lemma_fundamental_div_mod(m * num, len);
    vstd::arithmetic::div_mod::lemma_mod_bound(m * num, len);
    assert(q <= p) by (nonlinear_arith)
        requires
            len * q <= p * len,
            len >= 1,
    ;
    crate::scalar::lemma_toward_zero_bounds(a, num, len);
}

/// The target of the separation rule for `boid`, which sees
/// `boids_in_vision`.
pub fn boid_behaviour_seperation(boid: &Boid, boids_in_vision: &Vec<Boid>) -> (seperation_avg: Vec2)
    requires
        boid.wf(),
        all_wf(boids_in_vision@),
    ensures
        seperation_avg@ == seperation(boid@, models(boids_in_vision@)),
        magnitude_of(seperation_avg.x as int) <= PUSH_MAX,
        magnitude_of(seperation_avg.y as int) <= PUSH_MAX,
{
    let n: usize = boids_in_vision.len();
    let pos = boid.position();
    let reach: u128 = squared(boid.seperation_vision());
    let mut sum_x: i128 = 0;
    let mut sum_y: i128 = 0;
    let mut cnt: usize = 0;
    let mut i: usize = 0;
    proof {
        reveal(Seq::filter);
        assert(models(boids_in_vision@.take(0)) =~= Seq::<BoidModel>::empty());
        assert(repulsions(boid@, Seq::<BoidModel>::empty()) =~= Seq::<Vector>::empty());
    }
    while i < n
        invariant
            i <= n == boids_in_vision.len(),
            boid.wf(),
            all_wf(boids_in_vision@),
            pos@ == boid@.pos,
            reach == boid@.seperation_vision * boid@.seperation_vision,
            cnt <= i,
            cnt == repulsions(boid@, models(boids_in_vision@.take(i as int))).len(),
            (Vector { x: sum_x as int, y: sum_y as int }) == vector_sum(
                repulsions(boid@, models(boids_in_vision@.take(i as int))),
            ),
            magnitude_of(sum_x as int) <= cnt * PUSH_MAX,
            magnitude_of(sum_y as int) <= cnt * PUSH_MAX,
        decreases n - i,
    {
        let other = boids_in_vision[i];
        let away = offset(pos, other.position());
        let distance_squared: u128 = away.length_squared();
        proof {
            let before = models(boids_in_vision@.take(i as int));
            assert(models(boids_in_vision@.take(i + 1)) =~= before.push(other@));
            lemma_repulsions_push(boid@, before, other@);
            lemma_vector_sum_push(repulsions(boid@, before), repulsion(boid@, other@));
            crate::vec2::lemma_length_squared_sign(away@);
            assert(away@ == Vector::zero() <==> other@.pos == boid@.pos);
        }
        if distance_squared != 0 && distance_squared < reach {
            let push = push_from(away, boid.vision());
            sum_x = sum_x + push.x as i128;
            sum_y = sum_y + push.y as i128;
            cnt += 1;
        }
        i += 1;
    }
    proof {
        assert(boids_in_vision@.take(i as int) =~= boids_in_vision@);
    }
    if cnt == 0 {
        Vec2 { x: 0, y: 0 }
    } else {
        proof {
            lemma_share_within(sum_x as int, cnt as int, PUSH_MAX as int);
            lemma_share_within(sum_y as int, cnt as int, PUSH_MAX as int);
        }
        Vec2 {
            x: crate::scalar::share_toward_zero(sum_x, cnt),
            y: crate::scalar::share_toward_zero(sum_y, cnt),
        }
    }
}

/// What the three rules ask of a boid: what `Behaviours` stands for.
pub struct Targets {
    pub alignment: Vector,
    pub cohesion: Vector,
    pub seperation: Vector,
}

/// The targets that the three rules give a boid.
#[derive(Clone, Copy, Debug, PartialEq, Eq, Structural)]
pub struct Behaviours {
    pub alignment: Vec2,
    pub cohesion: Vec2,
    pub seperation: Vec2,
}

impl View for Behaviours {
    type V = Targets;

    open spec fn view(&self) -> Targets {
        Targets {
            alignment: self.alignment@,
            cohesion: self.cohesion@,
            seperation: self.seperation@,
        }
    }
}

/// What the rules ask of `subject` in `flock`: nothing where it sees no more
/// than one boid, which is then itself; else the three targets, each from
/// all that it sees.
pub open spec fn targets(subject: BoidModel, flock: Seq<BoidModel>) -> Option<Targets> {
    let seen = neighbours(subject, flock);
    if seen.len() > 1 {
        Some(
            Targets {
                alignment: alignment(seen),
                cohesion: cohesion(subject.pos, seen),
                seperation: seperation(subject, seen),
            },
        )
    } else {
        None
    }
}

/// The boid after the rules were applied: with nothing asked it keeps its
/// acceleration; else the acceleration is the sum of the three steering
/// forces, and nothing of the former is left.
pub open spec fn steered_by(subject: BoidModel, asked: Option<Targets>) -> BoidModel {
    match asked {
        Some(t) => subject.at_rest().steered(t.alignment).steered(t.cohesion).steered(
            t.seperation,
        ),
        None => subject,
    }
}

/// What the rules ask of `boid` in `flock`.
pub fn boid_behaviours(boid: &Boid, flock: &Vec<Boid>) -> (asked: Option<Behaviours>)
    requires
        boid.wf(),
        all_wf(flock@),
    ensures
        match asked {
            Some(b) => targets(boid@, models(flock@)) == Some(b@),
            None => targets(boid@, models(flock@)).is_none(),
        },
{
    let boids_in_vision = collect_intersections(boid, flock);
    proof {
        assert(models(boids_in_vision@).len() == boids_in_vision@.len());
    }
    if boids_in_vision.len() > 1 {
        Some(
            Behaviours {
                alignment: boid_behaviour_alignment(&boids_in_vision),
                cohesion: boid_behaviour_cohesion(boid.position(), &boids_in_vision),
                seperation: boid_behaviour_seperation(boid, &boids_in_vision),
            },
        )
    } else {
        None
    }
}

/// Whether one boid sees another goes by the radius of the one that looks:
/// of two boids at a distance between their radii, the one with the greater
/// radius sees the other and is not seen by it.
pub proof fn lemma_vision_is_the_subjects(a: BoidModel, b: BoidModel)
    requires
        b.pos.minus(a.pos).length_squared() <= a.vision * a.vision,
        b.pos.minus(a.pos).length_squared() > b.vision * b.vision,
    ensures
        sees(a, b),
        !sees(b, a),
{
    let (dx, dy) = (b.pos.x - a.pos.x, b.pos.y - a.pos.y);
    assert((-dx) * (-dx) == dx * dx && (-dy) * (-dy) == dy * dy) by (nonlinear_arith);
    assert(a.pos.minus(b.pos).length_squared() == b.pos.minus(a.pos).length_squared());
}

/// What a boid sees with one radius it sees with any greater radius.
pub proof fn lemma_sees_with_greater_radius(subject: BoidModel, wider: BoidModel, other: BoidModel)
    requires
        wider.pos == subject.pos,
        0 <= subject.vision <= wider.vision,
        sees(subject, other),
    ensures
        sees(wider, other),
{
    crate::scalar::lemma_square_monotone(subject.vision, wider.vision);
}

/// Every boid sees itself, whatever its radius.
pub proof fn lemma_sees_itself(b: BoidModel)
    ensures
        sees(b, b),
{
    assert(b.vision * b.vision >= 0) by (nonlinear_arith);
    assert(0 * 0 == 0) by (nonlinear_arith);
}

/// Where no boid crowds the subject, there is no push.
pub proof fn lemma_repulsions_none(subject: BoidModel, seen: Seq<BoidModel>)
    requires
        forall|i: int| 0 <= i < seen.len() ==> !crowds(subject, #[trigger] seen[i]),
    ensures
        repulsions(subject, seen).len() == 0,
    decreases seen.len(),
{
    if seen.len() == 0 {
        reveal(Seq::filter);
    } else {
        lemma_repulsions_none(subject, seen.drop_last());
        lemma_repulsions_push(subject, seen.drop_last(), seen.last());
        assert(seen.drop_last().push(seen.last()) =~= seen);
    }
}

/// Where no boid that the subject sees is closer than its separation radius
/// and elsewhere, the separation rule asks for nothing: the zero vector.
pub proof fn lemma_seperation_without_crowd(subject: BoidModel, seen: Seq<BoidModel>)
    requires
        forall|i: int| 0 <= i < seen.len() ==> !crowds(subject, #[trigger] seen[i]),
    ensures
        seperation(subject, seen) == Vector::zero(),
{
    lemma_repulsions_none(subject, seen);
}

/// The sum of the directions of boids that all fly in the direction `d`.
proof fn lemma_heading_sum_uniform(seen: Seq<BoidModel>, d: Vector)
    requires
        forall|i: int| 0 <= i < seen.len() ==> (#[trigger] seen[i]).vel.normalize_or_zero() == d,
    ensures
        vector_sum(headings(seen)) == (Vector { x: seen.len() * d.x, y: seen.len() * d.y }),
    decreases seen.len(),
{
    let n = seen.len() as int;
    if n == 0 {
        assert(0 * d.x == 0 && 0 * d.y == 0) by (nonlinear_arith);
    } else {
        lemma_heading_sum_uniform(seen.drop_last(), d);
        assert(headings(seen).drop_last() =~= headings(seen.drop_last()));
        assert(headings(seen).last() == seen[n - 1].vel.normalize_or_zero());
        assert((n - 1) * d.x + d.x == n * d.x && (n - 1) * d.y + d.y == n * d.y)
            by (nonlinear_arith);
    }
}

/// The share of each among `count`, where the total is `count` times `a`,
/// is `a`.
proof fn lemma_share_of_multiple(count: int, a: int)
    requires
        count > 0,
    ensures
        div_toward_zero(count * a, count) == a,
{
    if a >= 0 {
        assert(count * a >= 0) by (nonlinear_arith)
            requires
                count > 0,
                a >= 0,
        ;
        vstd::arithmetic::div_mod::lemma_div_multiples_vanish(a, count);
    } else {
        assert(count * a < 0 && -(count * a) == count * (-a)) by (nonlinear_arith)
            requires
                count > 0,
                a < 0,
        ;
        vstd::arithmetic::div_mod::lemma_div_multiples_vanish(-a, count);
    }
}

/// Where all the boids that a boid sees, itself among them, fly in one
/// direction, the alignment rule asks for that direction.
pub proof fn lemma_alignment_uniform(seen: Seq<BoidModel>, d: Vector)
    requires
        seen.len() > 0,
        forall|i: int| 0 <= i < seen.len() ==> (#[trigger] seen[i]).vel.normalize_or_zero() == d,
    ensures
        alignment(seen) == d,
{
    lemma_heading_sum_uniform(seen, d);
    lemma_share_of_multiple(seen.len() as int, d.x);
    lemma_share_of_multiple(seen.len() as int, d.y);
}

/// Where a total of `count` parts is within `count * limit` of zero, the
/// share of each is within `limit`.
proof fn lemma_share_within(total: int, count: int, limit: int)
    requires
        count > 0,
        limit >= 0,
        magnitude_of(total) <= count * limit,
    ensures
        magnitude_of(total) / count <= limit,
        magnitude_of(div_toward_zero(total, count)) <= limit,
{
    let m = magnitude_of(total);
    vstd::arithmetic::div_mod::lemma_fundamental_div_mod(m, count);
    vstd::arithmetic::div_mod::lemma_mod_bound(m, count);
    vstd::arithmetic::div_mod::lemma_div_pos_is_pos(m, count);
    let q = m / count;
    assert(q <= limit) by (nonlinear_arith)
        requires
            count * q <= m,
            m <= count * limit,
            count > 0,
    ;
}

} // verus!
