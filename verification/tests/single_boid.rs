use boids::boid::{
    wrapped, Boid, COORD_MAX, DEFAULT_MAX_SPEED, DEFAULT_MAX_STEERING, DEFAULT_SEPERATION_VISION,
    DEFAULT_VISION, DRAW_OFFSET_MAX, EXTENT_MAX, INITIAL_SPEED_MIN, RADIUS_MAX, SPEED_MAX,
    STEERING_MAX,
};
use boids::scalar::UNIT;
use boids::vec2::Vec2;

fn boid_at(pos: Vec2, vel: Vec2) -> Boid {
    Boid::with_params(pos, vel, 100 * UNIT, 75 * UNIT, 200_000, 5 * UNIT).unwrap()
}

#[test]
fn default_parameters_of_a_new_boid() {
    let boid = Boid::new(Vec2::new(12 * UNIT, -7 * UNIT));
    assert_eq!(boid.position(), Vec2::new(12 * UNIT, -7 * UNIT));
    assert_eq!(boid.acceleration(), Vec2::zero());
    assert_eq!(boid.vision(), 100_000_000);
    assert_eq!(boid.seperation_vision(), 75_000_000);
    assert_eq!(boid.max_steering(), 200_000);
    assert_eq!(boid.max_speed(), 5_000_000);
    assert_eq!(boid.vision(), DEFAULT_VISION);
    assert_eq!(boid.seperation_vision(), DEFAULT_SEPERATION_VISION);
    assert_eq!(boid.max_steering(), DEFAULT_MAX_STEERING);
    assert_eq!(boid.max_speed(), DEFAULT_MAX_SPEED);
}

#[test]
fn new_boids_are_neither_slow_nor_too_fast() {
    let least = (INITIAL_SPEED_MIN as u128) * (INITIAL_SPEED_MIN as u128);
    let most = 2 * (DRAW_OFFSET_MAX as u128) * (DRAW_OFFSET_MAX as u128);
    assert!(most < (DEFAULT_MAX_SPEED as u128) * (DEFAULT_MAX_SPEED as u128));
    for _ in 0..500 {
        let boid = Boid::new(Vec2::zero());
        let speed_squared = boid.velocity().length_squared();
        assert!(speed_squared >= least);
        assert!(speed_squared <= most);
    }
}

#[test]
fn new_boids_differ_in_velocity() {
    let first = Boid::new(Vec2::zero()).velocity();
    let mut differs = false;
    for _ in 0..64 {
        if Boid::new(Vec2::zero()).velocity() != first {
            differs = true;
        }
    }
    assert!(differs);
}

#[test]
fn velocity_from_the_least_draws() {
    let boid = Boid::from_draws(Vec2::zero(), 0, 0);
    assert_eq!(boid.velocity(), Vec2::new(-1_500_000, -1_500_000));
}

#[test]
fn velocity_from_the_greatest_draws() {
    let boid = Boid::from_draws(Vec2::zero(), u32::MAX, u32::MAX);
    assert_eq!(boid.velocity(), Vec2::new(1_499_997, 1_499_997));
}

#[test]
fn velocity_from_draws_in_the_middle_is_given_a_direction() {
    let boid = Boid::from_draws(Vec2::zero(), 0x8000_0000, 0x8000_0100);
    assert_eq!(boid.velocity(), Vec2::new(2_000_000, 0));
}

#[test]
fn velocity_from_short_draws_is_lengthened() {
    let boid = Boid::from_draws(Vec2::new(5, 6), 0x1234_5678, 0x9abc_def0);
    assert_eq!(boid.velocity(), Vec2::new(-1_943_211, 473_216));
    assert_eq!(boid.position(), Vec2::new(5, 6));
    assert_eq!(boid.acceleration(), Vec2::zero());
}

#[test]
fn velocity_from_draws_just_above_the_middle_is_not_overlong() {
    let boid = Boid::from_draws(Vec2::zero(), 2_147_488_000, 2_147_492_352);
    assert_eq!(boid.velocity(), Vec2::new(894_428, 1_788_856));
    assert!(boid.velocity().length_squared() <= 2_000_003u128 * 2_000_003u128);
}

#[test]
fn velocity_from_any_draws_is_within_what_can_be_drawn() {
    let draws: Vec<u32> = vec![
        0,
        1,
        255,
        256,
        0x7fff_ffff,
        0x8000_0000,
        0x8000_0100,
        2_147_488_000,
        2_147_492_352,
        0x1234_5678,
        0x9abc_def0,
        0xffff_ff00,
        u32::MAX,
    ];
    for &a in draws.iter() {
        for &b in draws.iter() {
            let speed_squared = Boid::from_draws(Vec2::zero(), a, b).velocity().length_squared();
            assert!(speed_squared >= 4_000_000_000_000);
            assert!(speed_squared <= 4_500_000_000_000);
        }
    }
}

#[test]
fn the_low_eight_bits_of_a_draw_do_not_count() {
    let a = Boid::from_draws(Vec2::zero(), 0x1234_5600, 0x9abc_de00);
    let b = Boid::from_draws(Vec2::zero(), 0x1234_56ff, 0x9abc_deff);
    assert_eq!(a, b);
}

#[test]
fn parameters_within_the_limits_are_accepted() {
    let boid = Boid::with_params(
        Vec2::new(COORD_MAX, -COORD_MAX),
        Vec2::new(-SPEED_MAX, SPEED_MAX),
        RADIUS_MAX,
        0,
        STEERING_MAX,
        SPEED_MAX,
    )
    .unwrap();
    assert_eq!(boid.position(), Vec2::new(COORD_MAX, -COORD_MAX));
    assert_eq!(boid.velocity(), Vec2::new(-SPEED_MAX, SPEED_MAX));
    assert_eq!(boid.acceleration(), Vec2::zero());
    assert_eq!(boid.vision(), RADIUS_MAX);
    assert_eq!(boid.seperation_vision(), 0);
    assert_eq!(boid.max_steering(), STEERING_MAX);
    assert_eq!(boid.max_speed(), SPEED_MAX);
}

#[test]
fn parameters_beyond_the_limits_are_refused() {
    let p = Vec2::zero();
    let v = Vec2::zero();
    assert!(Boid::with_params(Vec2::new(COORD_MAX + 1, 0), v, 1, 1, 1, 1).is_none());
    assert!(Boid::with_params(Vec2::new(0, -COORD_MAX - 1), v, 1, 1, 1, 1).is_none());
    assert!(Boid::with_params(Vec2::new(i64::MIN, 0), v, 1, 1, 1, 1).is_none());
    assert!(Boid::with_params(p, Vec2::new(SPEED_MAX + 1, 0), 1, 1, 1, 1).is_none());
    assert!(Boid::with_params(p, Vec2::new(0, -SPEED_MAX - 1), 1, 1, 1, 1).is_none());
    assert!(Boid::with_params(p, v, -1, 1, 1, 1).is_none());
    assert!(Boid::with_params(p, v, RADIUS_MAX + 1, 1, 1, 1).is_none());
    assert!(Boid::with_params(p, v, 1, -1, 1, 1).is_none());
    assert!(Boid::with_params(p, v, 1, RADIUS_MAX + 1, 1, 1).is_none());
    assert!(Boid::with_params(p, v, 1, 1, -1, 1).is_none());
    assert!(Boid::with_params(p, v, 1, 1, STEERING_MAX + 1, 1).is_none());
    assert!(Boid::with_params(p, v, 1, 1, 1, -1).is_none());
    assert!(Boid::with_params(p, v, 1, 1, 1, SPEED_MAX + 1).is_none());
    assert!(Boid::with_params(p, v, 0, 0, 0, 0).is_some());
}

#[test]
fn a_coordinate_beyond_the_far_edge_comes_back_at_the_near_edge() {
    assert_eq!(wrapped(400 * UNIT + 1, 3 * UNIT, 400 * UNIT), -400 * UNIT);
    assert_eq!(wrapped(400 * UNIT + 1, -3 * UNIT, 400 * UNIT), -400 * UNIT);
    assert_eq!(wrapped(COORD_MAX, 0, EXTENT_MAX), -EXTENT_MAX);
}

#[test]
fn a_coordinate_beyond_the_near_edge_comes_back_at_the_far_edge() {
    assert_eq!(wrapped(-400 * UNIT - 1, -3 * UNIT, 400 * UNIT), 400 * UNIT);
    assert_eq!(wrapped(-400 * UNIT - 1, 3 * UNIT, 400 * UNIT), 400 * UNIT);
}

#[test]
fn a_coordinate_inside_the_world_moves_by_the_velocity() {
    assert_eq!(wrapped(17 * UNIT, 3 * UNIT, 400 * UNIT), 20 * UNIT);
    assert_eq!(wrapped(-17 * UNIT, 3 * UNIT, 400 * UNIT), -14 * UNIT);
    assert_eq!(wrapped(0, 0, 0), 0);
}

#[test]
fn a_coordinate_on_an_edge_is_not_wrapped_yet() {
    assert_eq!(wrapped(400 * UNIT, 3 * UNIT, 400 * UNIT), 403 * UNIT);
    assert_eq!(wrapped(-400 * UNIT, -3 * UNIT, 400 * UNIT), -403 * UNIT);
    assert_eq!(wrapped(403 * UNIT, 3 * UNIT, 400 * UNIT), -400 * UNIT);
}

#[test]
fn update_moves_and_wraps_each_axis_by_itself() {
    let mut boid = boid_at(Vec2::new(401 * UNIT, 10 * UNIT), Vec2::new(UNIT, -2 * UNIT));
    boid.update(400 * UNIT, 300 * UNIT);
    assert_eq!(boid.position(), Vec2::new(-400 * UNIT, 8 * UNIT));
    assert_eq!(boid.velocity(), Vec2::new(UNIT, -2 * UNIT));

    let mut boid = boid_at(Vec2::new(10 * UNIT, -301 * UNIT), Vec2::new(UNIT, -2 * UNIT));
    boid.update(400 * UNIT, 300 * UNIT);
    assert_eq!(boid.position(), Vec2::new(11 * UNIT, 300 * UNIT));
}

#[test]
fn update_caps_the_speed() {
    let mut boid = Boid::with_params(
        Vec2::zero(),
        Vec2::new(30 * UNIT, 40 * UNIT),
        100 * UNIT,
        75 * UNIT,
        200_000,
        5 * UNIT,
    )
    .unwrap();
    boid.update(400 * UNIT, 300 * UNIT);
    assert_eq!(boid.position(), Vec2::new(30 * UNIT, 40 * UNIT));
    assert_eq!(boid.velocity(), Vec2::new(3 * UNIT, 4 * UNIT));
}

#[test]
fn update_takes_up_the_acceleration_after_the_move() {
    let mut boid = boid_at(Vec2::zero(), Vec2::new(UNIT, 0));
    boid.apply_steering_force(Vec2::new(0, 7));
    assert_eq!(boid.acceleration(), Vec2::new(-39_223, 196_116));
    boid.update(400 * UNIT, 300 * UNIT);
    assert_eq!(boid.position(), Vec2::new(UNIT, 0));
    assert_eq!(boid.velocity(), Vec2::new(960_777, 196_116));
    assert_eq!(boid.acceleration(), Vec2::new(-39_223, 196_116));
}

#[test]
fn speed_stays_capped_under_any_accelerations() {
    let mut boid = boid_at(Vec2::zero(), Vec2::new(UNIT, 0));
    let cap = (5 * UNIT as u128) * (5 * UNIT as u128);
    let pushes = vec![
        Vec2::new(1, 0),
        Vec2::new(1, 1),
        Vec2::new(-5, 2),
        Vec2::new(0, -9),
        Vec2::new(1_000_000_000_000_000_000, 1),
    ];
    for round in 0..200 {
        boid.apply_behaviours(
            pushes[round % 5],
            pushes[(round + 1) % 5],
            pushes[(round + 2) % 5],
        );
        boid.update(400 * UNIT, 300 * UNIT);
        assert!(boid.velocity().length_squared() <= cap);
    }
}

#[test]
fn steering_force_toward_a_direction() {
    let mut boid = boid_at(Vec2::zero(), Vec2::new(UNIT, 0));
    boid.apply_steering_force(Vec2::new(0, 7));
    assert_eq!(boid.acceleration(), Vec2::new(-39_223, 196_116));
    assert_eq!(boid.velocity(), Vec2::new(UNIT, 0));
    assert_eq!(boid.position(), Vec2::zero());
}

#[test]
fn steering_force_goes_by_direction_and_not_by_length() {
    let mut toward_short = boid_at(Vec2::zero(), Vec2::new(3 * UNIT, 0));
    toward_short.apply_steering_force(Vec2::new(1, 1));
    let mut toward_long = boid_at(Vec2::zero(), Vec2::new(3 * UNIT, 0));
    toward_long.apply_steering_force(Vec2::new(UNIT, UNIT));
    assert_eq!(toward_short.acceleration(), Vec2::new(29_952, 197_744));
    assert_eq!(toward_long.acceleration(), Vec2::new(29_952, 197_744));
}

#[test]
fn steering_force_is_no_longer_than_the_limit() {
    let limit = 200_000u128 * 200_000u128;
    let wanted = vec![
        Vec2::new(0, 7),
        Vec2::new(-3, -3),
        Vec2::new(i64::MAX, i64::MIN),
        Vec2::new(1, 0),
        Vec2::zero(),
    ];
    for force in wanted {
        let mut boid = boid_at(Vec2::zero(), Vec2::new(-2 * UNIT, 3 * UNIT));
        boid.apply_steering_force(force);
        assert!(boid.acceleration().length_squared() <= limit);
    }
}

#[test]
fn steering_toward_nothing_brakes() {
    let mut boid = boid_at(Vec2::zero(), Vec2::new(3 * UNIT, 4 * UNIT));
    boid.apply_steering_force(Vec2::zero());
    assert_eq!(boid.acceleration(), Vec2::new(-120_000, -160_000));
}

#[test]
fn a_small_correction_is_not_capped() {
    let mut boid = boid_at(Vec2::zero(), Vec2::new(4_900_000, 0));
    boid.apply_steering_force(Vec2::new(9, 0));
    assert_eq!(boid.acceleration(), Vec2::new(100_000, 0));
}

#[test]
fn steering_forces_add_up_within_a_tick() {
    let mut boid = boid_at(Vec2::zero(), Vec2::new(UNIT, 0));
    boid.apply_steering_force(Vec2::new(0, 7));
    boid.apply_steering_force(Vec2::new(0, 7));
    assert_eq!(boid.acceleration(), Vec2::new(-78_446, 392_232));
}

#[test]
fn behaviours_replace_the_former_acceleration() {
    let mut boid = boid_at(Vec2::zero(), Vec2::new(UNIT, 0));
    boid.apply_steering_force(Vec2::new(-1, 0));
    boid.apply_behaviours(Vec2::new(0, 7), Vec2::new(0, 7), Vec2::new(0, 7));
    assert_eq!(boid.acceleration(), Vec2::new(-117_669, 588_348));
    boid.apply_behaviours(Vec2::new(0, 7), Vec2::new(0, 7), Vec2::new(0, 7));
    assert_eq!(boid.acceleration(), Vec2::new(-117_669, 588_348));
}
