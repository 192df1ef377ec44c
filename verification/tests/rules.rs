use boids::behaviour::{
    boid_behaviour_alignment, boid_behaviour_cohesion, boid_behaviour_seperation, boid_behaviours,
    collect_intersections, in_vision,
};
use boids::boid::Boid;
use boids::scalar::UNIT;
use boids::vec2::Vec2;

fn plain(x: i64, y: i64, vx: i64, vy: i64) -> Boid {
    Boid::with_params(Vec2::new(x, y), Vec2::new(vx, vy), 100 * UNIT, 75 * UNIT, 200_000, 5 * UNIT)
        .unwrap()
}

fn seeing(x: i64, y: i64, vision: i64) -> Boid {
    Boid::with_params(Vec2::new(x, y), Vec2::new(UNIT, 0), vision, 75 * UNIT, 200_000, 5 * UNIT)
        .unwrap()
}

#[test]
fn near_boid_is_seen_and_far_boid_is_not() {
    let flock = vec![
        plain(0, 0, UNIT, 0),
        plain(10 * UNIT, 0, 0, 2 * UNIT),
        plain(1000 * UNIT, 1000 * UNIT, 0, -UNIT),
    ];
    let seen = collect_intersections(&flock[0], &flock);
    assert_eq!(seen, vec![flock[0], flock[1]]);
    assert!(in_vision(&flock[0], &flock[1]));
    assert!(!in_vision(&flock[0], &flock[2]));
    let pull = boid_behaviour_cohesion(flock[0].position(), &seen);
    assert_eq!(pull, Vec2::new(5 * UNIT, 0));
    assert!(pull.x > 0);
}

#[test]
fn far_boid_sees_only_itself() {
    let flock = vec![
        plain(0, 0, UNIT, 0),
        plain(10 * UNIT, 0, 0, 2 * UNIT),
        plain(1000 * UNIT, 1000 * UNIT, 0, -UNIT),
    ];
    let seen = collect_intersections(&flock[2], &flock);
    assert_eq!(seen, vec![flock[2]]);
    assert_eq!(boid_behaviours(&flock[2], &flock), None);
}

#[test]
fn vision_goes_by_the_radius_of_the_one_that_looks() {
    let wide = seeing(0, 0, 100 * UNIT);
    let narrow = seeing(50 * UNIT, 0, 10 * UNIT);
    assert!(in_vision(&wide, &narrow));
    assert!(!in_vision(&narrow, &wide));
    let flock = vec![wide, narrow];
    assert_eq!(collect_intersections(&wide, &flock), vec![wide, narrow]);
    assert_eq!(collect_intersections(&narrow, &flock), vec![narrow]);
}

#[test]
fn a_boid_at_the_vision_radius_is_seen() {
    let subject = seeing(0, 0, 5 * UNIT);
    assert!(in_vision(&subject, &seeing(3 * UNIT, 4 * UNIT, 0)));
    assert!(!in_vision(&subject, &seeing(3 * UNIT, 4 * UNIT + 1, 0)));
    assert!(in_vision(&subject, &seeing(-5 * UNIT, 0, 0)));
    assert!(!in_vision(&subject, &seeing(-5 * UNIT - 1, 0, 0)));
}

#[test]
fn a_blind_boid_sees_what_is_at_its_own_place() {
    let blind = seeing(7, 7, 0);
    let flock = vec![seeing(7, 7, 50), blind, seeing(7, 8, 50)];
    assert_eq!(collect_intersections(&blind, &flock), vec![flock[0], blind]);
}

#[test]
fn nothing_is_seen_in_an_empty_flock() {
    let subject = plain(0, 0, UNIT, 0);
    let flock: Vec<Boid> = Vec::new();
    assert_eq!(collect_intersections(&subject, &flock), Vec::new());
    assert_eq!(boid_behaviours(&subject, &flock), None);
}

#[test]
fn what_is_seen_keeps_its_order() {
    let subject = plain(0, 0, UNIT, 0);
    let flock = vec![
        plain(99 * UNIT, 0, 0, UNIT),
        plain(500 * UNIT, 0, 0, UNIT),
        plain(0, -3 * UNIT, 0, UNIT),
        plain(0, 101 * UNIT, 0, UNIT),
        plain(-60 * UNIT, 80 * UNIT, 0, UNIT),
    ];
    assert_eq!(collect_intersections(&subject, &flock), vec![flock[0], flock[2], flock[4]]);
}

#[test]
fn alignment_is_the_mean_of_the_directions() {
    let seen = vec![plain(0, 0, UNIT, 0), plain(10 * UNIT, 0, 0, 2 * UNIT)];
    assert_eq!(boid_behaviour_alignment(&seen), Vec2::new(500_000, 500_000));
}

#[test]
fn alignment_does_not_go_by_speed() {
    let seen = vec![plain(0, 0, 100 * UNIT, 0), plain(0, 0, 0, 1)];
    assert_eq!(boid_behaviour_alignment(&seen), Vec2::new(500_000, 500_000));
    let seen = vec![plain(0, 0, 1, 1), plain(0, 0, 3 * UNIT, 3 * UNIT)];
    assert_eq!(boid_behaviour_alignment(&seen), Vec2::new(707_106, 707_106));
}

#[test]
fn alignment_of_one_heading_is_that_heading() {
    let seen = vec![
        plain(0, 0, 3 * UNIT, 4 * UNIT),
        plain(5, 5, 30 * UNIT, 40 * UNIT),
        plain(-9, 2, 3, 4),
    ];
    assert_eq!(boid_behaviour_alignment(&seen), Vec2::new(600_000, 800_000));
    assert_eq!(boid_behaviour_alignment(&seen), seen[0].velocity().normalize_or_zero());
    let alone = vec![plain(0, 0, -UNIT, -UNIT)];
    assert_eq!(boid_behaviour_alignment(&alone), alone[0].velocity().normalize_or_zero());
}

#[test]
fn alignment_counts_a_boid_at_rest_as_no_direction() {
    let seen = vec![plain(0, 0, UNIT, 0), plain(0, 0, 0, 0)];
    assert_eq!(boid_behaviour_alignment(&seen), Vec2::new(500_000, 0));
    let seen = vec![plain(0, 0, UNIT, 0), plain(0, 0, -UNIT, 0), plain(0, 0, 0, -5)];
    assert_eq!(boid_behaviour_alignment(&seen), Vec2::new(0, -333_333));
}

#[test]
fn cohesion_points_to_the_centre() {
    let seen = vec![plain(0, 0, UNIT, 0), plain(10 * UNIT, 0, 0, UNIT), plain(2 * UNIT, 9 * UNIT, 0, 0)];
    assert_eq!(
        boid_behaviour_cohesion(Vec2::new(UNIT, UNIT), &seen),
        Vec2::new(3 * UNIT, 2 * UNIT)
    );
}

#[test]
fn cohesion_rounds_the_centre_toward_zero() {
    let seen = vec![plain(-3, 0, 0, UNIT), plain(0, -4, 0, UNIT)];
    assert_eq!(
        boid_behaviour_cohesion(Vec2::new(UNIT, UNIT), &seen),
        Vec2::new(-1_000_001, -1_000_002)
    );
    let seen = vec![plain(-3, 0, 0, UNIT), plain(0, -4, 0, UNIT), plain(0, 0, 0, UNIT)];
    assert_eq!(boid_behaviour_cohesion(Vec2::zero(), &seen), Vec2::new(-1, -1));
}

#[test]
fn cohesion_at_the_centre_is_nothing() {
    let seen = vec![plain(-7 * UNIT, 2 * UNIT, 0, UNIT), plain(7 * UNIT, -2 * UNIT, 0, UNIT)];
    assert_eq!(boid_behaviour_cohesion(Vec2::zero(), &seen), Vec2::zero());
}

#[test]
fn seperation_pushes_away_in_proportion_to_vision_over_distance() {
    let subject = plain(0, 0, UNIT, 0);
    let seen = vec![subject, plain(10 * UNIT, 0, 0, 2 * UNIT)];
    assert_eq!(boid_behaviour_seperation(&subject, &seen), Vec2::new(-10 * UNIT, 0));
    assert_eq!(boid_behaviour_seperation(&seen[1], &seen), Vec2::new(10 * UNIT, 0));
}

#[test]
fn seperation_is_the_mean_over_those_that_crowd() {
    let subject = plain(0, 0, UNIT, 0);
    let seen = vec![subject, plain(10 * UNIT, 0, 0, UNIT), plain(0, -20 * UNIT, 0, UNIT)];
    assert_eq!(boid_behaviour_seperation(&subject, &seen), Vec2::new(-5 * UNIT, 2_500_000));
}

#[test]
fn seperation_without_anyone_close_is_zero() {
    let subject = plain(0, 0, UNIT, 0);
    let seen = vec![subject, plain(80 * UNIT, 0, 0, UNIT), plain(0, -99 * UNIT, 0, UNIT)];
    assert_eq!(boid_behaviour_seperation(&subject, &seen), Vec2::zero());
    assert_eq!(boid_behaviour_seperation(&subject, &vec![subject]), Vec2::zero());
    assert_eq!(boid_behaviour_seperation(&subject, &Vec::new()), Vec2::zero());
}

#[test]
fn seperation_leaves_out_a_boid_at_the_radius() {
    let subject = plain(0, 0, UNIT, 0);
    let at = vec![subject, plain(75 * UNIT, 0, 0, UNIT)];
    assert_eq!(boid_behaviour_seperation(&subject, &at), Vec2::zero());
    let within = vec![subject, plain(75 * UNIT - 1, 0, 0, UNIT)];
    assert_eq!(boid_behaviour_seperation(&subject, &within), Vec2::new(-1_333_333, 0));
}

#[test]
fn seperation_leaves_out_a_boid_at_the_same_place() {
    let subject = plain(4, 4, UNIT, 0);
    let twin = plain(4, 4, 0, -UNIT);
    assert_eq!(boid_behaviour_seperation(&subject, &vec![subject, twin]), Vec2::zero());
}

#[test]
fn seperation_from_a_very_close_boid_is_strong() {
    let subject = plain(0, 0, UNIT, 0);
    assert_eq!(
        boid_behaviour_seperation(&subject, &vec![plain(3, 4, 0, UNIT)]),
        Vec2::new(-12_000_000_000_000, -16_000_000_000_000)
    );
    assert_eq!(
        boid_behaviour_seperation(&subject, &vec![plain(1, 0, 0, UNIT)]),
        Vec2::new(-100_000_000_000_000, 0)
    );
    assert_eq!(
        boid_behaviour_seperation(&subject, &vec![plain(1, 1, 0, UNIT)]),
        Vec2::new(-49_999_929_289_343, -49_999_929_289_343)
    );
    assert_eq!(
        boid_behaviour_seperation(&subject, &vec![plain(1, 2, 0, UNIT)]),
        Vec2::new(-19_999_973_167_184, -39_999_991_055_728)
    );
}

#[test]
fn seperation_goes_by_the_vision_radius() {
    let subject =
        Boid::with_params(Vec2::zero(), Vec2::zero(), 30 * UNIT, 75 * UNIT, 200_000, 5 * UNIT)
            .unwrap();
    let seen = vec![subject, plain(10 * UNIT, 0, 0, UNIT)];
    assert_eq!(boid_behaviour_seperation(&subject, &seen), Vec2::new(-3 * UNIT, 0));
}

#[test]
fn all_three_rules_for_a_boid_with_a_neighbour() {
    let flock = vec![
        plain(0, 0, UNIT, 0),
        plain(10 * UNIT, 0, 0, 2 * UNIT),
        plain(1000 * UNIT, 1000 * UNIT, 0, -UNIT),
    ];
    let asked = boid_behaviours(&flock[0], &flock).unwrap();
    assert_eq!(asked.alignment, Vec2::new(500_000, 500_000));
    assert_eq!(asked.cohesion, Vec2::new(5 * UNIT, 0));
    assert_eq!(asked.seperation, Vec2::new(-10 * UNIT, 0));
}

#[test]
fn no_rule_for_a_boid_that_sees_one_boid() {
    let subject = plain(0, 0, UNIT, 0);
    assert_eq!(boid_behaviours(&subject, &vec![subject]), None);
    assert_eq!(boid_behaviours(&subject, &vec![plain(500 * UNIT, 0, 0, 0)]), None);
    assert_eq!(boid_behaviours(&subject, &vec![plain(5 * UNIT, 0, 0, 0)]), None);
    assert!(boid_behaviours(&subject, &vec![subject, plain(5 * UNIT, 0, 0, 0)]).is_some());
}
