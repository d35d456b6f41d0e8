use partikl::geometry::{Vec2, COORD_LIMIT, UNIT};
use partikl::interaction::{
    generate_particle_spec, seed_bytes, seeded_rng, validate_interaction_list,
    validate_single_interaction, Interaction, MalformedInteractionError, ParticleSpec, COEFF_RANGE,
};
use partikl::region::SimRegion;
use partikl::sim::{
    advance, compute_force_batch, compute_forces, compute_friction, integrate, merge_force_batches,
    tick, tick_with_forces, triangular_kernel, wrap_around, Acceleration, ForceContribution, InteractionId, LastPosition,
    ParticleBundle, SimError, SimState,
};
use partikl::world::{handle_keyboard_input, init_particles, select_on_click, BUCKET_SIZE};

const U: i64 = UNIT;

fn particle(x: i64, y: i64, kind: usize) -> ParticleBundle {
    ParticleBundle {
        position: Vec2::new(x, y),
        last_pos: LastPosition(Vec2::new(x, y)),
        acceleration: Acceleration(Vec2::new(0, 0)),
        interaction: InteractionId(kind),
    }
}

fn spec_of(rows: Vec<Vec<i64>>) -> ParticleSpec {
    let rows = rows.into_iter().map(|force_coeffs| Interaction { force_coeffs }).collect();
    validate_interaction_list(rows).expect("square")
}

fn world(ps: &[ParticleBundle]) -> (Vec<ParticleBundle>, SimRegion) {
    let mut region = SimRegion::new(1000 * U, 1000 * U, BUCKET_SIZE);
    for (h, p) in ps.iter().enumerate() {
        region.insert_entity(h, p.position.x, p.position.y);
    }
    (ps.to_vec(), region)
}

#[test]
fn kernel_vanishes_at_its_ends_and_peaks_at_its_centre() {
    assert_eq!(triangular_kernel(100 * U, 30 * U, 10 * U, 20 * U), 0);
    assert_eq!(triangular_kernel(100 * U, 30 * U, 10 * U, 40 * U), 0);
    assert_eq!(triangular_kernel(100 * U, 30 * U, 10 * U, 30 * U), 100 * U);
    assert_eq!(triangular_kernel(100 * U, 30 * U, 10 * U, 25 * U), 50 * U);
    assert_eq!(triangular_kernel(100 * U, 30 * U, 10 * U, 35 * U), 50 * U);
    assert_eq!(triangular_kernel(-100 * U, 30 * U, 10 * U, 22 * U), -20 * U);
    assert_eq!(triangular_kernel(100 * U, 30 * U, 10 * U, 45 * U), 0);
}

#[test]
fn kernel_rises_then_falls() {
    let mut last = 0;
    for k in 20..=30 {
        let v = triangular_kernel(100 * U, 30 * U, 10 * U, k * U);
        assert!(v >= last);
        last = v;
    }
    for k in 30..=40 {
        let v = triangular_kernel(100 * U, 30 * U, 10 * U, k * U);
        assert!(v <= last);
        last = v;
    }
}

#[test]
fn validation_accepts_square_matrices() {
    let spec = spec_of(vec![vec![1, 2], vec![3, 4]]);
    assert_eq!(spec.type_count(), 2);
    assert_eq!(spec.coeff(1, 0), 3);
    assert!(validate_interaction_list(Vec::new()).is_ok());
}

#[test]
fn validation_reports_the_first_bad_row() {
    let rows = vec![
        Interaction { force_coeffs: vec![1, 2, 3] },
        Interaction { force_coeffs: vec![1] },
        Interaction { force_coeffs: vec![1, 2, 3, 4] },
    ];
    match validate_interaction_list(rows) {
        Err(e) => assert_eq!(e, MalformedInteractionError { total_interactions: 3, total_coeffs: 1 }),
        Ok(_) => panic!("accepted a ragged matrix"),
    }
    let row = Interaction { force_coeffs: vec![1, 2] };
    assert!(validate_single_interaction(&row, 2).is_ok());
    assert_eq!(
        validate_single_interaction(&row, 3),
        Err(MalformedInteractionError { total_interactions: 3, total_coeffs: 2 })
    );
}

#[test]
fn generated_spec_is_square_and_in_range() {
    let mut rng = seeded_rng(7);
    let spec = generate_particle_spec(&mut rng, 4);
    assert_eq!(spec.interactions.len(), 4);
    let mut all_low = true;
    for row in spec.interactions.iter() {
        assert_eq!(row.force_coeffs.len(), 4);
        for c in row.force_coeffs.iter() {
            assert!(-COEFF_RANGE <= *c && *c < COEFF_RANGE);
            if *c != -COEFF_RANGE {
                all_low = false;
            }
        }
    }
    assert!(!all_low);
}

#[test]
fn same_seed_gives_same_spec() {
    let a = generate_particle_spec(&mut seeded_rng(42), 3);
    let b = generate_particle_spec(&mut seeded_rng(42), 3);
    for (ra, rb) in a.interactions.iter().zip(b.interactions.iter()) {
        assert_eq!(ra.force_coeffs, rb.force_coeffs);
    }
}

#[test]
fn seed_bytes_repeat_the_little_endian_bytes() {
    let b = seed_bytes(0x0807_0605_0403_0201);
    assert_eq!(b.len(), 32);
    for i in 0..32 {
        assert_eq!(b[i] as usize, i % 8 + 1);
    }
}

#[test]
fn end_to_end_attraction_moves_by_acceleration_times_dt_squared() {
    let spec = spec_of(vec![vec![0, 50 * U], vec![50 * U, 0]]);
    let (mut ps, mut region) = world(&[particle(0, 0, 0), particle(30 * U, 0, 1)]);
    let mut forced = ps.clone();
    compute_forces(&spec, &region, SimState::Running, &mut forced).unwrap();
    assert_eq!(forced[1].acceleration.0, Vec2::new(-50 * U, 0));
    assert_eq!(forced[0].acceleration.0, Vec2::new(50 * U, 0));
    tick(&spec, &mut region, SimState::Running, &mut ps).unwrap();
    assert_eq!(ps[1].position, Vec2::new(30 * U - 5_000, 0));
    assert_eq!(ps[1].last_pos.0, Vec2::new(30 * U, 0));
    assert_eq!(ps[1].acceleration.0, Vec2::new(0, 0));
    assert_eq!(ps[0].position, Vec2::new(5_000, 0));
}

#[test]
fn coefficient_is_read_from_the_other_particles_row() {
    let spec = spec_of(vec![vec![0, 50 * U], vec![0, 0]]);
    let (mut ps, region) = world(&[particle(0, 0, 0), particle(30 * U, 0, 1)]);
    compute_forces(&spec, &region, SimState::Running, &mut ps).unwrap();
    assert_eq!(ps[1].acceleration.0, Vec2::new(-50 * U, 0));
    assert_eq!(ps[0].acceleration.0, Vec2::new(0, 0));
}

#[test]
fn repulsion_dominates_at_short_range() {
    for c in [500 * U, -500 * U].iter() {
        let spec = spec_of(vec![vec![*c]]);
        let (mut ps, region) = world(&[particle(0, 0, 0), particle(5 * U, 0, 0)]);
        compute_forces(&spec, &region, SimState::Running, &mut ps).unwrap();
        assert_eq!(ps[0].acceleration.0, Vec2::new(-500 * U, 0));
        assert_eq!(ps[1].acceleration.0, Vec2::new(500 * U, 0));
        assert_eq!(triangular_kernel(*c, 30 * U, 10 * U, 20 * U), 0);
    }
}

#[test]
fn coincident_particles_get_full_repulsion() {
    let spec = spec_of(vec![vec![0]]);
    let (mut ps, region) = world(&[particle(U, U, 0), particle(U, U, 0)]);
    compute_forces(&spec, &region, SimState::Running, &mut ps).unwrap();
    assert_eq!(ps[0].acceleration.0, Vec2::new(-1000 * U, 0));
    assert_eq!(ps[1].acceleration.0, Vec2::new(-1000 * U, 0));
}

#[test]
fn particles_beyond_the_cutoff_do_not_interact() {
    let spec = spec_of(vec![vec![100 * U]]);
    let (mut ps, region) = world(&[particle(0, 0, 0), particle(40 * U + 1, 0, 0)]);
    compute_forces(&spec, &region, SimState::Running, &mut ps).unwrap();
    assert_eq!(ps[0].acceleration.0, Vec2::new(0, 0));
}

#[test]
fn forces_act_across_the_seam() {
    let spec = spec_of(vec![vec![60 * U]]);
    let mut region = SimRegion::new(960 * U, 960 * U, BUCKET_SIZE);
    region.insert_entity(0, 465 * U, 0);
    region.insert_entity(1, -465 * U, 0);
    let mut ps = vec![particle(465 * U, 0, 0), particle(-465 * U, 0, 0)];
    compute_forces(&spec, &region, SimState::Running, &mut ps).unwrap();
    assert_eq!(ps[0].acceleration.0, Vec2::new(60 * U, 0));
    assert_eq!(ps[1].acceleration.0, Vec2::new(-60 * U, 0));
}

#[test]
fn batches_merge_into_the_accelerations() {
    let spec = spec_of(vec![vec![50 * U]]);
    let (mut ps, region) = world(&[particle(0, 0, 0), particle(30 * U, 0, 0), particle(0, 30 * U, 0)]);
    let first = compute_force_batch(&spec, &region, &ps, 0, 1);
    let second = compute_force_batch(&spec, &region, &ps, 1, 3);
    assert_eq!(first.len(), 1);
    assert_eq!(second.len(), 2);
    assert_eq!(second[0].particle, 1);
    let mut whole = ps.clone();
    compute_forces(&spec, &region, SimState::Running, &mut whole).unwrap();
    merge_force_batches(&mut ps, &vec![first, second]).unwrap();
    assert_eq!(ps, whole);
}

#[test]
fn merge_rejects_unknown_particle_and_changes_nothing() {
    let mut ps = vec![particle(0, 0, 0)];
    let before = ps.clone();
    let batches = vec![vec![
        ForceContribution { particle: 0, x: 5, y: 5 },
        ForceContribution { particle: 3, x: 1, y: 1 },
    ]];
    assert_eq!(
        merge_force_batches(&mut ps, &batches),
        Err(SimError::AccelerationOutOfRange { particle: 3 })
    );
    assert_eq!(ps, before);
}

#[test]
fn force_overflow_is_reported() {
    let spec = spec_of(vec![vec![0]]);
    let mut p = particle(0, 0, 0);
    p.acceleration = Acceleration(Vec2::new(i64::MIN + 1, 0));
    let (mut ps, region) = world(&[p, particle(5 * U, 0, 0)]);
    let before = ps.clone();
    assert_eq!(
        compute_forces(&spec, &region, SimState::Running, &mut ps),
        Err(SimError::AccelerationOutOfRange { particle: 0 })
    );
    assert_eq!(ps, before);
}

#[test]
fn friction_snaps_resting_particles() {
    let mut p = particle(10 * U, 0, 0);
    p.last_pos = LastPosition(Vec2::new(10 * U - 1, 0));
    let mut ps = vec![p];
    compute_friction(SimState::Running, &mut ps).unwrap();
    assert_eq!(ps[0].last_pos.0, Vec2::new(10 * U, 0));
    assert_eq!(ps[0].acceleration.0, Vec2::new(0, 0));
}

#[test]
fn friction_applies_quadratic_drag() {
    let mut p = particle(10 * U, 0, 0);
    p.last_pos = LastPosition(Vec2::new(9 * U, 0));
    let mut ps = vec![p];
    compute_friction(SimState::Running, &mut ps).unwrap();
    assert_eq!(ps[0].acceleration.0, Vec2::new(-100 * U, 0));
    assert_eq!(ps[0].last_pos.0, Vec2::new(9 * U, 0));
}

#[test]
fn friction_overflow_is_reported() {
    let mut p = particle(10 * U, 0, 0);
    p.last_pos = LastPosition(Vec2::new(9 * U, 0));
    p.acceleration = Acceleration(Vec2::new(i64::MIN, 0));
    let mut ps = vec![particle(0, 0, 0), p];
    let before = ps.clone();
    assert_eq!(
        compute_friction(SimState::Running, &mut ps),
        Err(SimError::AccelerationOutOfRange { particle: 1 })
    );
    assert_eq!(ps, before);
}

#[test]
fn integration_is_a_verlet_step() {
    let mut p = particle(10 * U, 5 * U, 0);
    p.last_pos = LastPosition(Vec2::new(9 * U, 5 * U));
    p.acceleration = Acceleration(Vec2::new(-100 * U, 20 * U));
    let mut ps = vec![p];
    integrate(SimState::Running, &mut ps).unwrap();
    assert_eq!(ps[0].position, Vec2::new(11 * U - 10_000, 5 * U + 2_000));
    assert_eq!(ps[0].last_pos.0, Vec2::new(10 * U, 5 * U));
    assert_eq!(ps[0].acceleration.0, Vec2::new(0, 0));
}

#[test]
fn integration_out_of_range_is_reported() {
    let mut p = particle(COORD_LIMIT - 1, 0, 0);
    p.last_pos = LastPosition(Vec2::new(COORD_LIMIT - 1001, 0));
    let mut ps = vec![p];
    assert_eq!(
        integrate(SimState::Running, &mut ps),
        Err(SimError::PositionOutOfRange { particle: 0 })
    );
    assert_eq!(ps, vec![p]);
}

#[test]
fn wrap_around_moves_particle_and_index() {
    let mut region = SimRegion::new(100 * U, 100 * U, 10 * U);
    let mut p = particle(51 * U, 0, 0);
    p.last_pos = LastPosition(Vec2::new(49 * U, 0));
    region.insert_entity(0, 49 * U, 0);
    let mut ps = vec![p];
    wrap_around(SimState::Running, &mut region, &mut ps);
    assert_eq!(ps[0].position, Vec2::new(-49 * U, 0));
    assert_eq!(ps[0].last_pos.0, Vec2::new(-51 * U, 0));
    assert_eq!(region.get_entities((-5, 0)), vec![0]);
    assert!(!region.get_entities((3, 0)).contains(&0));
}

#[test]
fn paused_ticks_change_nothing() {
    let spec = spec_of(vec![vec![0, 50 * U], vec![-30 * U, 10 * U]]);
    let mut rng = seeded_rng(3);
    let (mut ps, mut region) = init_particles(&mut rng, &spec, 400 * U, 300 * U, 50);
    let before = ps.clone();
    let index_before = region.index.clone();
    advance(&spec, &mut region, SimState::Paused, &mut ps, 25).unwrap();
    for _ in 0..5 {
        tick(&spec, &mut region, SimState::Paused, &mut ps).unwrap();
        compute_forces(&spec, &region, SimState::Paused, &mut ps).unwrap();
        compute_friction(SimState::Paused, &mut ps).unwrap();
        integrate(SimState::Paused, &mut ps).unwrap();
        wrap_around(SimState::Paused, &mut region, &mut ps);
    }
    assert_eq!(ps, before);
    assert_eq!(region.index, index_before);
}

#[test]
fn running_keeps_the_index_consistent() {
    let spec = spec_of(vec![vec![200 * U, -300 * U], vec![400 * U, 100 * U]]);
    let mut rng = seeded_rng(11);
    let (mut ps, mut region) = init_particles(&mut rng, &spec, 300 * U, 200 * U, 60);
    advance(&spec, &mut region, SimState::Running, &mut ps, 40).unwrap();
    for (h, p) in ps.iter().enumerate() {
        assert!(p.position.x.abs() <= 150 * U && p.position.y.abs() <= 100 * U);
        let b = region.bucket_coords(p.position.x, p.position.y);
        let key = (b.0 as i128) * (1i128 << 64) + b.1 as i128;
        assert!(region.index[&key].contains(&h));
        let total: usize = region.index.values().map(|v| v.iter().filter(|e| **e == h).count()).sum();
        assert_eq!(total, 1);
    }
}

#[test]
fn spawned_particles_lie_in_the_domain() {
    let spec = spec_of(vec![vec![0, 0, 0], vec![0, 0, 0], vec![0, 0, 0]]);
    let mut rng = seeded_rng(5);
    let (ps, region) = init_particles(&mut rng, &spec, 200 * U, 100 * U, 300);
    assert_eq!(ps.len(), 300);
    assert_eq!(region.granularity, 40 * U);
    let mut kinds = [0usize; 3];
    for p in ps.iter() {
        assert!(-100 * U <= p.position.x && p.position.x < 100 * U);
        assert!(-50 * U <= p.position.y && p.position.y < 50 * U);
        assert!((p.position.x - p.last_pos.0.x).abs() <= 125 * U / 100);
        kinds[p.interaction.0] += 1;
    }
    assert!(kinds.iter().all(|k| *k > 0));
    assert!(ps.iter().any(|p| p.position.x != ps[0].position.x));
}

#[test]
fn click_selects_the_nearest_particle_within_the_radius() {
    let (ps, region) = world(&[
        particle(10 * U, 0, 0),
        particle(3 * U, 0, 0),
        particle(2 * U, 0, 0),
        particle(30 * U, 0, 0),
    ]);
    let sel = select_on_click(&ps, &region, Vec2::new(0, 0));
    assert_eq!(sel.id, Some(2));
    assert_eq!(sel.translation, Vec2::new(2 * U, 0));
    let mut n = sel.neighbours.clone();
    n.sort();
    assert_eq!(n, vec![0, 1, 2, 3]);
    let none = select_on_click(&ps, &region, Vec2::new(100 * U, 100 * U));
    assert_eq!(none.id, None);
    assert!(none.neighbours.is_empty());
}

#[test]
fn click_breaks_ties_by_lower_handle() {
    let (ps, region) = world(&[particle(3 * U, 0, 0), particle(-3 * U, 0, 0)]);
    assert_eq!(select_on_click(&ps, &region, Vec2::new(0, 0)).id, Some(0));
}

#[test]
fn pause_key_toggles_state() {
    assert_eq!(handle_keyboard_input(SimState::Running, true), SimState::Paused);
    assert_eq!(handle_keyboard_input(SimState::Paused, true), SimState::Running);
    assert_eq!(handle_keyboard_input(SimState::Paused, false), SimState::Paused);
}

#[test]
fn malformed_error_has_a_message() {
    let e = MalformedInteractionError { total_interactions: 12, total_coeffs: 3 };
    assert_eq!(e.message(), "expected 12 coefficients, got 3");
    let e = MalformedInteractionError { total_interactions: 0, total_coeffs: 105 };
    assert_eq!(e.message(), "expected 0 coefficients, got 105");
}

#[test]
fn worker_batches_tick_like_a_whole_tick() {
    let spec = spec_of(vec![vec![200 * U, -300 * U], vec![400 * U, 100 * U]]);
    let (mut a, mut ra) = init_particles(&mut seeded_rng(9), &spec, 300 * U, 200 * U, 40);
    let (mut b, mut rb) = init_particles(&mut seeded_rng(9), &spec, 300 * U, 200 * U, 40);
    for _ in 0..10 {
        tick(&spec, &mut ra, SimState::Running, &mut a).unwrap();
        let batches = vec![
            compute_force_batch(&spec, &rb, &b, 0, 15),
            compute_force_batch(&spec, &rb, &b, 15, 15),
            compute_force_batch(&spec, &rb, &b, 15, 40),
        ];
        tick_with_forces(&spec, &mut rb, SimState::Running, &mut b, &batches).unwrap();
        assert_eq!(a, b);
    }
}

#[test]
fn advance_runs_ticks_in_sequence() {
    let spec = spec_of(vec![vec![200 * U, -300 * U], vec![400 * U, 100 * U]]);
    let (mut a, mut ra) = init_particles(&mut seeded_rng(4), &spec, 300 * U, 200 * U, 40);
    let (mut b, mut rb) = init_particles(&mut seeded_rng(4), &spec, 300 * U, 200 * U, 40);
    advance(&spec, &mut ra, SimState::Running, &mut a, 7).unwrap();
    for _ in 0..7 {
        tick(&spec, &mut rb, SimState::Running, &mut b).unwrap();
    }
    assert_eq!(a, b);
    assert_eq!(ra.index, rb.index);
}

#[test]
fn advance_stops_at_the_failing_tick() {
    let spec = spec_of(vec![vec![0]]);
    let mut region = SimRegion::new(1000 * U, 1000 * U, BUCKET_SIZE);
    let mut p = particle(0, 0, 0);
    p.acceleration = Acceleration(Vec2::new(i64::MIN + 1, 0));
    region.insert_entity(0, 0, 0);
    region.insert_entity(1, 5 * U, 0);
    let mut ps = vec![p, particle(5 * U, 0, 0)];
    let before = ps.clone();
    assert_eq!(
        advance(&spec, &mut region, SimState::Running, &mut ps, 3),
        Err(SimError::AccelerationOutOfRange { particle: 0 })
    );
    assert_eq!(ps, before);
}

#[test]
fn no_particles_need_no_types() {
    let spec = spec_of(Vec::new());
    let (ps, region) = init_particles(&mut seeded_rng(1), &spec, 100 * U, 100 * U, 0);
    assert!(ps.is_empty());
    assert!(region.index.is_empty());
}
