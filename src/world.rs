//! Setting up a population and the read-only queries the host makes of it.

use rand::rngs::SmallRng;
use vstd::prelude::*;

use crate::geometry::{abs, trunc_div, trunc_div_i128, Vec2, COORD_LIMIT, UNIT};
use crate::interaction::{random_in_range, ParticleSpec};
use crate::region::{position_in_range, SimRegion};
use crate::sim::{
    force_inputs_ok, positions, Acceleration, InteractionId, LastPosition, ParticleBundle, SimState,
    STEPS_PER_SECOND,
};

verus! {

/// Side length of a bucket: one interaction radius.
pub const BUCKET_SIZE: i64 = 40 * UNIT;

/// Initial speeds along each axis are drawn from `[-START_SPEED, START_SPEED)`.
pub const START_SPEED: i64 = 125 * UNIT;

/// Squared radius around a click within which a particle is selected.
pub const SELECT_RADIUS_SQ: i128 = 16_000_000_000_000;

/// `num_particles` particles, each of a type drawn among the matrix's, at a
/// position drawn from the domain `[-w/2, w/2) x [-h/2, h/2)`, with a start
/// velocity drawn from `[-START_SPEED, START_SPEED)` per axis (its last
/// position is one tick back along it), and the index that holds them.
pub fn init_particles(
    rng: &mut SmallRng,
    particle_spec: &ParticleSpec,
    width: i64,
    height: i64,
    num_particles: usize,
) -> (r: (Vec<ParticleBundle>, SimRegion))
    requires
        particle_spec.wf(),
        particle_spec.matrix().len() <= i64::MAX,
        num_particles > 0 ==> particle_spec.matrix().len() >= 1,
        2 <= width <= COORD_LIMIT,
        2 <= height <= COORD_LIMIT,
    ensures
        force_inputs_ok(particle_spec, &r.1, r.0@),
        r.0@.len() == num_particles,
        r.1.top_right.x == width / 2 && r.1.top_right.y == height / 2,
        r.1.granularity == BUCKET_SIZE,
        forall|i: int|
            0 <= i < num_particles ==> {
                let p = #[trigger] r.0@[i];
                &&& -(width / 2) <= p.position.x < width / 2
                &&& -(height / 2) <= p.position.y < height / 2
                &&& exists|vx: int, vy: int|
                    -START_SPEED <= vx < START_SPEED && -START_SPEED <= vy < START_SPEED
                        && p.last_pos.0.x == p.position.x - trunc_div(vx, STEPS_PER_SECOND as int)
                        && p.last_pos.0.y == p.position.y - trunc_div(vy, STEPS_PER_SECOND as int)
                &&& p.acceleration.0 == (Vec2 { x: 0, y: 0 })
            },
{
    let mut sim_region = SimRegion::new(width, height, BUCKET_SIZE);
    let hw = width / 2;
    let hh = height / 2;
    let type_count = particle_spec.type_count();
    let mut particles: Vec<ParticleBundle> = Vec::new();
    let mut i: usize = 0;
    while i < num_particles
        invariant
            i <= num_particles,
            particle_spec.wf(),
            type_count == particle_spec.matrix().len(),
            type_count <= i64::MAX,
            num_particles > 0 ==> type_count >= 1,
            hw == width / 2,
            hh == height / 2,
            1 <= hw <= COORD_LIMIT / 2,
            1 <= hh <= COORD_LIMIT / 2,
            particles@.len() == i,
            force_inputs_ok(particle_spec, &sim_region, particles@),
            sim_region.top_right.x == width / 2 && sim_region.top_right.y == height / 2,
            sim_region.granularity == BUCKET_SIZE,
            forall|j: int|
                0 <= j < i ==> {
                    let p = #[trigger] particles@[j];
                    &&& -(width / 2) <= p.position.x < width / 2
                    &&& -(height / 2) <= p.position.y < height / 2
                    &&& exists|vx: int, vy: int|
                        -START_SPEED <= vx < START_SPEED && -START_SPEED <= vy < START_SPEED
                            && p.last_pos.0.x == p.position.x - trunc_div(
                            vx,
                            STEPS_PER_SECOND as int,
                        ) && p.last_pos.0.y == p.position.y - trunc_div(
                            vy,
                            STEPS_PER_SECOND as int,
                        )
                    &&& p.acceleration.0 == (Vec2 { x: 0, y: 0 })
                },
        decreases num_particles - i,
    {
        let kind = random_in_range(rng, 0, type_count as i64) as usize;
        let x = random_in_range(rng, -hw, hw);
        let y = random_in_range(rng, -hh, hh);
        let vx = random_in_range(rng, -START_SPEED, START_SPEED);
        let vy = random_in_range(rng, -START_SPEED, START_SPEED);
        let dx = trunc_div_i128(vx as i128, STEPS_PER_SECOND as i128) as i64;
        let dy = trunc_div_i128(vy as i128, STEPS_PER_SECOND as i128) as i64;
        let p = ParticleBundle {
            position: Vec2 { x, y },
            last_pos: LastPosition(Vec2 { x: x - dx, y: y - dy }),
            acceleration: Acceleration(Vec2 { x: 0, y: 0 }),
            interaction: InteractionId(kind),
        };
        let ghost before = particles@;
        assert(positions(before).len() == i);
        sim_region.insert_entity(i, x, y);
        particles.push(p);
        proof {
            assert(positions(particles@) =~= positions(before).push(Vec2 { x, y }));
            assert(sim_region.index_matches(positions(particles@)));
            assert(particles@[i as int] == p);
        }
        i = i + 1;
    }
    (particles, sim_region)
}

/// The selection a click makes: the particle chosen, if any, where it is, and
/// the particles its neighbourhood query returns.
pub struct SelectedGizmo {
    pub id: Option<usize>,
    pub translation: Vec2,
    pub neighbours: Vec<usize>,
}

/// Squared distance between two points, without wrap-around.
pub open spec fn dist_sq(p: Vec2, q: Vec2) -> int {
    (p.x - q.x) * (p.x - q.x) + (p.y - q.y) * (p.y - q.y)
}

/// Particle `i` is the one a click at `point` selects: within the selection
/// radius, no particle nearer, and none as near with a smaller handle.
pub open spec fn selects(ps: Seq<ParticleBundle>, point: Vec2, i: int) -> bool {
    &&& 0 <= i < ps.len()
    &&& dist_sq(ps[i].position, point) <= SELECT_RADIUS_SQ
    &&& forall|j: int|
        0 <= j < ps.len() ==> #[trigger] dist_sq(ps[j].position, point) >= dist_sq(
            ps[i].position,
            point,
        ) && (j < i ==> dist_sq(ps[j].position, point) != dist_sq(ps[i].position, point))
}

fn dist_sq_exec(p: Vec2, q: Vec2) -> (r: i128)
    requires
        position_in_range(p.x as int, p.y as int),
        position_in_range(q.x as int, q.y as int),
    ensures
        r == dist_sq(p, q),
{
    let dx = p.x as i128 - q.x as i128;
    let dy = p.y as i128 - q.y as i128;
    assert(0 <= dx as int * dx as int <= 0x40_0000_0000_0000_0000_0000) by (nonlinear_arith)
        requires
            abs(dx as int) <= 0x800_0000_0000,
    ;
    assert(0 <= dy as int * dy as int <= 0x40_0000_0000_0000_0000_0000) by (nonlinear_arith)
        requires
            abs(dy as int) <= 0x800_0000_0000,
    ;
    dx * dx + dy * dy
}

/// Selects the particle nearest to `point` within the selection radius, by a
/// scan over all particles, and gathers its spatial neighbours. Nothing is
/// selected where no particle is within the radius.
pub fn select_on_click(particles: &Vec<ParticleBundle>, sim_region: &SimRegion, point: Vec2) -> (r:
    SelectedGizmo)
    requires
        sim_region.wf(),
        position_in_range(point.x as int, point.y as int),
        forall|i: int|
            0 <= i < particles@.len() ==> position_in_range(
                (#[trigger] particles@[i]).position.x as int,
                particles@[i].position.y as int,
            ),
    ensures
        r.id is None <==> forall|j: int|
            0 <= j < particles@.len() ==> #[trigger] dist_sq(particles@[j].position, point)
                > SELECT_RADIUS_SQ,
        r.id matches Some(i) ==> selects(particles@, point, i as int) && r.translation
            == particles@[i as int].position && r.neighbours@ == sim_region.neighbors_of_position(
            particles@[i as int].position.x as int,
            particles@[i as int].position.y as int,
        ),
        r.id is None ==> r.neighbours@.len() == 0,
{
    let mut best: Option<usize> = None;
    let mut best_d: i128 = 0;
    let mut i: usize = 0;
    while i < particles.len()
        invariant
            i <= particles@.len(),
            position_in_range(point.x as int, point.y as int),
            forall|k: int|
                0 <= k < particles@.len() ==> position_in_range(
                    (#[trigger] particles@[k]).position.x as int,
                    particles@[k].position.y as int,
                ),
            best is None ==> forall|j: int|
                0 <= j < i ==> #[trigger] dist_sq(particles@[j].position, point) > SELECT_RADIUS_SQ,
            best matches Some(b) ==> {
                &&& b < i
                &&& best_d == dist_sq(particles@[b as int].position, point)
                &&& best_d <= SELECT_RADIUS_SQ
                &&& forall|j: int|
                    0 <= j < i ==> (#[trigger] dist_sq(particles@[j].position, point)
                        > SELECT_RADIUS_SQ || dist_sq(particles@[j].position, point) > best_d || (
                    dist_sq(particles@[j].position, point) == best_d && j >= b))
            },
        decreases particles.len() - i,
    {
        let d = dist_sq_exec(particles[i].position, point);
        if d <= SELECT_RADIUS_SQ {
            match best {
                None => {
                    best = Some(i);
                    best_d = d;
                },
                Some(_) => {
                    if d < best_d {
                        best = Some(i);
                        best_d = d;
                    }
                },
            }
        }
        i = i + 1;
    }
    match best {
        Some(b) => {
            let translation = particles[b].position;
            let neighbours = sim_region.get_entities_by_position(translation.x, translation.y);
            proof {
                assert forall|j: int| 0 <= j < particles@.len() implies #[trigger] dist_sq(
                    particles@[j].position,
                    point,
                ) >= dist_sq(particles@[b as int].position, point) && (j < b ==> dist_sq(
                    particles@[j].position,
                    point,
                ) != dist_sq(particles@[b as int].position, point)) by {}
            }
            SelectedGizmo { id: Some(b), translation, neighbours }
        },
        None => SelectedGizmo { id: None, translation: point, neighbours: Vec::new() },
    }
}

/// The state after a key press: the pause key toggles between running and
/// paused; anything else leaves the state as it is.
pub fn handle_keyboard_input(state: SimState, pause_key_pressed: bool) -> (r: SimState)
    ensures
        !pause_key_pressed ==> r == state,
        pause_key_pressed ==> r == (if state == SimState::Running {
            SimState::Paused
        } else {
            SimState::Running
        }),
{
    if !pause_key_pressed {
        return state;
    }
    match state {
        SimState::Running => SimState::Paused,
        SimState::Paused => SimState::Running,
    }
}

} // verus!
