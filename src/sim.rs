//! Particles and the per-tick pipeline: forces, friction, integration and
//! wrap-around.

use vstd::prelude::*;

use crate::geometry::{
    abs, isqrt, is_sqrt_floor, lemma_sqrt_floor_exists, lemma_square_monotone, lemma_trunc_div_scaled, sqrt_floor,
    trunc_div, trunc_div_i128, Vec2, COORD_LIMIT, UNIT,
};
use crate::interaction::{ParticleSpec, COEFF_RANGE};
use crate::region::{position_in_range, wrap_adjust, SimRegion};

verus! {

/// Ticks per simulated second: every tick advances time by `1 / 100` s.
pub const STEPS_PER_SECOND: i64 = 100;

/// `dt` squared is `1 / DT_SQ_DIVISOR` s^2.
pub const DT_SQ_DIVISOR: i64 = 10_000;

/// A squared speed (in steps^2 / s^2) under which a particle is at rest:
/// 0.0001 length units^2 / s^2.
pub const VELOCITY_THRESHOLD: i128 = 100_000_000;

/// Squared interaction radius: 40 length units, squared.
pub const CUTOFF_SQ: i128 = 1_600_000_000_000_000;

/// Distance under which the type-independent repulsion applies.
pub const REPULSION_RADIUS: i64 = 10 * UNIT;

/// Repulsion at distance zero; it falls by 100 per unit of distance.
pub const REPULSION_PEAK: i64 = 1000 * UNIT;

/// Centre of the force kernel.
pub const KERNEL_MIDDLE: i64 = 30 * UNIT;

/// Half-width of the force kernel.
pub const KERNEL_WIDTH: i64 = 10 * UNIT;

/// Quadratic drag: `0.01 v |v|`, which in fixed point is `v |v| / DRAG_DIVISOR`.
pub const DRAG_DIVISOR: i128 = 100_000_000;

/// Bound on each component of one pair's force: 2^63.
pub const PAIR_BOUND: i128 = 0x8000_0000_0000_0000;

#[derive(Clone, Copy, Debug, PartialEq, Eq, Structural)]
pub struct Acceleration(pub Vec2);

#[derive(Clone, Copy, Debug, PartialEq, Eq, Structural)]
pub struct LastPosition(pub Vec2);

#[derive(Clone, Copy, Debug, PartialEq, Eq, Structural)]
pub struct InteractionId(pub usize);

/// One simulated point mass.
#[derive(Clone, Copy, Debug, PartialEq, Eq, Structural)]
pub struct ParticleBundle {
    pub position: Vec2,
    /// The position one tick ago, from which the velocity is inferred.
    pub last_pos: LastPosition,
    /// Accumulated over a tick, reset by integration.
    pub acceleration: Acceleration,
    pub interaction: InteractionId,
}

/// Whether the pipeline runs.
#[derive(Clone, Copy, Debug, PartialEq, Eq, Structural)]
pub enum SimState {
    Running,
    Paused,
}

/// A value left the range that the fixed-point state can hold; the tick that
/// met it changed nothing.
#[derive(Clone, Copy, Debug, PartialEq, Eq, Structural)]
pub enum SimError {
    AccelerationOutOfRange { particle: usize },
    PositionOutOfRange { particle: usize },
}

/// The force one particle's neighbourhood exerts on it, as computed by a
/// worker before the merge.
#[derive(Clone, Copy, Debug, PartialEq, Eq, Structural)]
pub struct ForceContribution {
    pub particle: usize,
    pub x: i128,
    pub y: i128,
}

pub open spec fn fits_i64(v: int) -> bool {
    i64::MIN <= v <= i64::MAX
}

pub open spec fn positions(ps: Seq<ParticleBundle>) -> Seq<Vec2> {
    ps.map_values(|p: ParticleBundle| p.position)
}

pub open spec fn last_positions(ps: Seq<ParticleBundle>) -> Seq<Vec2> {
    ps.map_values(|p: ParticleBundle| p.last_pos.0)
}

/// Positions within `COORD_LIMIT`, last positions within twice that.
pub open spec fn particle_in_range(p: ParticleBundle) -> bool {
    &&& abs(p.position.x as int) <= COORD_LIMIT
    &&& abs(p.position.y as int) <= COORD_LIMIT
    &&& abs(p.last_pos.0.x as int) <= 2 * COORD_LIMIT
    &&& abs(p.last_pos.0.y as int) <= 2 * COORD_LIMIT
}

pub open spec fn all_in_range(ps: Seq<ParticleBundle>) -> bool {
    forall|i: int| 0 <= i < ps.len() ==> particle_in_range(#[trigger] ps[i])
}

/// Every particle's type is a row of the matrix.
pub open spec fn types_valid(ps: Seq<ParticleBundle>, n: int) -> bool {
    forall|i: int| 0 <= i < ps.len() ==> (#[trigger] ps[i]).interaction.0 < n
}

/// The triangular kernel: `mag * max(0, 1 - |x - mid| / width)`, rounded
/// toward zero.
pub open spec fn kernel(mag: int, mid: int, width: int, x: int) -> int {
    let t = width - abs(x - mid);
    trunc_div(mag * (if t > 0 {
        t
    } else {
        0
    }), width)
}

/// The shortest delta from `origin` to `target` around the torus.
pub open spec fn corrected_delta(region: &SimRegion, origin: Vec2, target: Vec2) -> (int, int) {
    let dx = target.x - origin.x;
    let dy = target.y - origin.y;
    (
        dx + wrap_adjust(dx, region.top_right.x as int),
        dy + wrap_adjust(dy, region.top_right.y as int),
    )
}

/// The force that `o` exerts on `s`: none beyond the cutoff, repulsion of
/// `1000 - 100 d` away from `o` under distance 10 (along -x at distance 0),
/// else the kernel at `d` scaled by the coefficient in `o`'s row, `s`'s column.
pub open spec fn pair_force(
    m: Seq<Seq<i64>>,
    region: &SimRegion,
    s: ParticleBundle,
    o: ParticleBundle,
) -> (int, int) {
    let (dx, dy) = corrected_delta(region, s.position, o.position);
    let dsq = dx * dx + dy * dy;
    if dsq > CUTOFF_SQ {
        (0, 0)
    } else {
        let d = sqrt_floor(dsq);
        if d < REPULSION_RADIUS {
            let mag = REPULSION_PEAK - 100 * d;
            if d == 0 {
                (-mag, 0)
            } else {
                (-trunc_div(mag * dx, d), -trunc_div(mag * dy, d))
            }
        } else {
            let mag = kernel(
                m[o.interaction.0 as int][s.interaction.0 as int] as int,
                KERNEL_MIDDLE as int,
                KERNEL_WIDTH as int,
                d,
            );
            (trunc_div(mag * dx, d), trunc_div(mag * dy, d))
        }
    }
}

/// The forces on particle `i` from the listed handles, itself excepted.
pub open spec fn force_sum(
    m: Seq<Seq<i64>>,
    region: &SimRegion,
    ps: Seq<ParticleBundle>,
    i: int,
    nbrs: Seq<usize>,
) -> (int, int)
    decreases nbrs.len(),
{
    if nbrs.len() == 0 {
        (0, 0)
    } else {
        let rest = force_sum(m, region, ps, i, nbrs.drop_last());
        let j = nbrs.last() as int;
        if j == i {
            rest
        } else {
            let f = pair_force(m, region, ps[i], ps[j]);
            (rest.0 + f.0, rest.1 + f.1)
        }
    }
}

/// The force on particle `i` from every particle its neighbourhood query
/// returns.
pub open spec fn force_on(
    m: Seq<Seq<i64>>,
    region: &SimRegion,
    ps: Seq<ParticleBundle>,
    i: int,
) -> (int, int) {
    force_sum(
        m,
        region,
        ps,
        i,
        region.neighbors_of_position(ps[i].position.x as int, ps[i].position.y as int),
    )
}

/// What the force pass needs of its inputs.
pub open spec fn force_inputs_ok(
    spec: &ParticleSpec,
    region: &SimRegion,
    ps: Seq<ParticleBundle>,
) -> bool {
    &&& spec.wf()
    &&& region.wf()
    &&& region.index_matches(positions(ps))
    &&& all_in_range(ps)
    &&& types_valid(ps, spec.matrix().len() as int)
}

/// `mag * max(0, 1 - |x - middle| / width)`, rounded toward zero.
pub fn triangular_kernel(magnitude: i64, middle: i64, width: i64, x: i64) -> (r: i64)
    requires
        0 < width <= COORD_LIMIT,
        abs(middle as int) <= COORD_LIMIT,
        abs(x as int) <= COORD_LIMIT,
    ensures
        r == kernel(magnitude as int, middle as int, width as int, x as int),
        abs(r as int) <= abs(magnitude as int),
{
    let dist: i64 = if x >= middle {
        x - middle
    } else {
        middle - x
    };
    let t: i64 = if dist < width {
        width - dist
    } else {
        0
    };
    assert(abs(magnitude as int * t as int) <= 0x8000_0000_0000_0000 * 0x200_0000_0000)
        by (nonlinear_arith)
        requires
            0 <= t <= COORD_LIMIT,
            i64::MIN <= magnitude <= i64::MAX,
    ;
    let num: i128 = magnitude as i128 * t as i128;
    proof {
        lemma_trunc_div_scaled(magnitude as int, t as int, width as int);
    }
    let q = trunc_div_i128(num, width as i128);
    assert(magnitude >= 0 ==> num >= 0) by (nonlinear_arith)
        requires
            num == magnitude * t,
            t >= 0,
    ;
    assert(magnitude < 0 ==> num <= 0) by (nonlinear_arith)
        requires
            num == magnitude * t,
            t >= 0,
    ;
    q as i64
}

proof fn lemma_component_le_root(c: int, other: int, dsq: int, d: int)
    requires
        dsq == c * c + other * other,
        is_sqrt_floor(dsq, d),
    ensures
        abs(c) <= d,
{
    assert(other * other >= 0) by (nonlinear_arith);
    assert(abs(c) * abs(c) == c * c) by (nonlinear_arith);
    if abs(c) > d {
        lemma_square_monotone(d + 1, abs(c));
    }
}

/// The force that `o` exerts on `s`.
fn pair_force_exec(spec: &ParticleSpec, region: &SimRegion, s: ParticleBundle, o: ParticleBundle) -> (r:
    (i128, i128))
    requires
        spec.wf(),
        region.wf(),
        particle_in_range(s),
        particle_in_range(o),
        s.interaction.0 < spec.matrix().len(),
        o.interaction.0 < spec.matrix().len(),
    ensures
        (r.0 as int, r.1 as int) == pair_force(spec.matrix(), region, s, o),
        abs(r.0 as int) <= PAIR_BOUND,
        abs(r.1 as int) <= PAIR_BOUND,
{
    let delta = region.get_corrected_position_delta(s.position, o.position);
    let dx = delta.x as i128;
    let dy = delta.y as i128;
    assert(abs(dx as int) <= 0x800_0000_0000);
    assert(abs(dy as int) <= 0x800_0000_0000);
    assert(0 <= dx as int * dx as int <= 0x40_0000_0000_0000_0000_0000) by (nonlinear_arith)
        requires
            abs(dx as int) <= 0x800_0000_0000,
    ;
    assert(0 <= dy as int * dy as int <= 0x40_0000_0000_0000_0000_0000) by (nonlinear_arith)
        requires
            abs(dy as int) <= 0x800_0000_0000,
    ;
    let dsq = dx * dx + dy * dy;
    if dsq > CUTOFF_SQ {
        return (0, 0);
    }
    let d = isqrt(dsq as u128) as i128;
    proof {
        lemma_component_le_root(dx as int, dy as int, dsq as int, d as int);
        lemma_component_le_root(dy as int, dx as int, dsq as int, d as int);
        if d > 40 * UNIT {
            lemma_square_monotone(40 * UNIT + 1, d as int);
        }
    }
    if d < REPULSION_RADIUS as i128 {
        let mag: i128 = REPULSION_PEAK as i128 - 100 * d;
        if d == 0 {
            (-mag, 0)
        } else {
            assert(abs(mag as int * dx as int) <= 0x4000_0000_0000_0000_0000) by (nonlinear_arith)
                requires
                    0 <= mag <= REPULSION_PEAK,
                    abs(dx as int) <= 40 * UNIT,
            ;
            assert(abs(mag as int * dy as int) <= 0x4000_0000_0000_0000_0000) by (nonlinear_arith)
                requires
                    0 <= mag <= REPULSION_PEAK,
                    abs(dy as int) <= 40 * UNIT,
            ;
            proof {
                lemma_trunc_div_scaled(mag as int, dx as int, d as int);
                lemma_trunc_div_scaled(mag as int, dy as int, d as int);
            }
            (-trunc_div_i128(mag * dx, d), -trunc_div_i128(mag * dy, d))
        }
    } else {
        let c = spec.coeff(o.interaction.0, s.interaction.0);
        let mag = triangular_kernel(c, KERNEL_MIDDLE, KERNEL_WIDTH, d as i64) as i128;
        assert(abs(mag as int * dx as int) <= 0x8000_0000_0000_0000 * 0x400_0000) by (nonlinear_arith)
            requires
                abs(mag as int) <= 0x8000_0000_0000_0000,
                abs(dx as int) <= 40 * UNIT,
        ;
        assert(abs(mag as int * dy as int) <= 0x8000_0000_0000_0000 * 0x400_0000) by (nonlinear_arith)
            requires
                abs(mag as int) <= 0x8000_0000_0000_0000,
                abs(dy as int) <= 40 * UNIT,
        ;
        proof {
            lemma_trunc_div_scaled(mag as int, dx as int, d as int);
            lemma_trunc_div_scaled(mag as int, dy as int, d as int);
        }
        (trunc_div_i128(mag * dx, d), trunc_div_i128(mag * dy, d))
    }
}

/// `p` with `f` added to its acceleration.
pub open spec fn with_force(p: ParticleBundle, f: (int, int)) -> ParticleBundle {
    ParticleBundle {
        acceleration: Acceleration(
            Vec2 { x: (p.acceleration.0.x + f.0) as i64, y: (p.acceleration.0.y + f.1) as i64 },
        ),
        ..p
    }
}

/// Adding `f` to `p`'s acceleration stays within `i64`.
pub open spec fn force_fits(p: ParticleBundle, f: (int, int)) -> bool {
    fits_i64(p.acceleration.0.x + f.0) && fits_i64(p.acceleration.0.y + f.1)
}

/// The merge step for one contribution; `None` where the particle does not
/// exist or its acceleration would leave `i64`.
pub open spec fn add_contribution(ps: Seq<ParticleBundle>, c: ForceContribution) -> Option<
    Seq<ParticleBundle>,
> {
    if (c.particle as int) < ps.len() && force_fits(ps[c.particle as int], (c.x as int, c.y as int)) {
        Some(ps.update(c.particle as int, with_force(ps[c.particle as int], (c.x as int, c.y as int))))
    } else {
        None
    }
}

/// The contributions merged in order; `None` as soon as one fails.
pub open spec fn add_contributions(ps: Seq<ParticleBundle>, cs: Seq<ForceContribution>) -> Option<
    Seq<ParticleBundle>,
>
    decreases cs.len(),
{
    if cs.len() == 0 {
        Some(ps)
    } else {
        match add_contributions(ps, cs.drop_last()) {
            Some(q) => add_contribution(q, cs.last()),
            None => None,
        }
    }
}

/// The workers' lists, one after another.
pub open spec fn concat_batches(bs: Seq<Seq<ForceContribution>>) -> Seq<ForceContribution>
    decreases bs.len(),
{
    if bs.len() == 0 {
        Seq::empty()
    } else {
        concat_batches(bs.drop_last()) + bs.last()
    }
}

pub open spec fn batches_view(bs: Seq<Vec<ForceContribution>>) -> Seq<Seq<ForceContribution>> {
    bs.map_values(|b: Vec<ForceContribution>| b@)
}

/// Every particle's acceleration can take the force on it.
pub open spec fn forces_fit(m: Seq<Seq<i64>>, region: &SimRegion, ps: Seq<ParticleBundle>) -> bool {
    forall|i: int| 0 <= i < ps.len() ==> force_fits(#[trigger] ps[i], force_on(m, region, ps, i))
}

/// Every particle with the force on it added to its acceleration.
pub open spec fn forces_applied(
    m: Seq<Seq<i64>>,
    region: &SimRegion,
    ps: Seq<ParticleBundle>,
) -> Seq<ParticleBundle> {
    Seq::new(ps.len(), |i: int| with_force(ps[i], force_on(m, region, ps, i)))
}

proof fn lemma_add_contributions_none(
    ps: Seq<ParticleBundle>,
    pre: Seq<ForceContribution>,
    rest: Seq<ForceContribution>,
)
    requires
        add_contributions(ps, pre) is None,
    ensures
        add_contributions(ps, pre + rest) is None,
    decreases rest.len(),
{
    if rest.len() > 0 {
        lemma_add_contributions_none(ps, pre, rest.drop_last());
        assert((pre + rest).drop_last() =~= pre + rest.drop_last());
    } else {
        assert(pre + rest =~= pre);
    }
}

proof fn lemma_concat_batches_append(a: Seq<Seq<ForceContribution>>, b: Seq<Seq<ForceContribution>>)
    ensures
        concat_batches(a + b) == concat_batches(a) + concat_batches(b),
    decreases b.len(),
{
    if b.len() == 0 {
        assert(a + b =~= a);
        assert(concat_batches(a) + Seq::<ForceContribution>::empty() =~= concat_batches(a));
    } else {
        lemma_concat_batches_append(a, b.drop_last());
        assert((a + b).drop_last() =~= a + b.drop_last());
        assert(concat_batches(a) + concat_batches(b.drop_last()) + b.last() =~= concat_batches(a)
            + (concat_batches(b.drop_last()) + b.last()));
    }
}

/// The first `k` particles' accelerations can take the forces `fs`.
pub open spec fn prefix_fits(ps: Seq<ParticleBundle>, fs: Seq<(int, int)>, k: int) -> bool {
    forall|q: int| 0 <= q < k ==> force_fits(#[trigger] ps[q], fs[q])
}

/// The first `k` particles with the forces `fs` added.
pub open spec fn merged_prefix(ps: Seq<ParticleBundle>, fs: Seq<(int, int)>, k: int) -> Seq<
    ParticleBundle,
> {
    Seq::new(ps.len(), |i: int| if i < k { with_force(ps[i], fs[i]) } else { ps[i] })
}

/// Merging one contribution per particle, in particle order, adds each force
/// where all fit.
proof fn lemma_merge_in_order(ps: Seq<ParticleBundle>, fs: Seq<(int, int)>, cs: Seq<ForceContribution>)
    requires
        cs.len() <= ps.len(),
        fs.len() == ps.len(),
        forall|q: int|
            0 <= q < cs.len() ==> (#[trigger] cs[q]).particle == q && (cs[q].x as int, cs[q].y as int)
                == fs[q],
    ensures
        add_contributions(ps, cs) == if prefix_fits(ps, fs, cs.len() as int) {
            Some(merged_prefix(ps, fs, cs.len() as int))
        } else {
            None::<Seq<ParticleBundle>>
        },
    decreases cs.len(),
{
    if cs.len() > 0 {
        let k = cs.len() - 1;
        lemma_merge_in_order(ps, fs, cs.drop_last());
        assert(cs.drop_last().len() == k);
        if prefix_fits(ps, fs, k) {
            let q = merged_prefix(ps, fs, k);
            assert(q[k] == ps[k]);
            assert(cs.last() == cs[k]);
            if force_fits(ps[k], fs[k]) {
                assert(q.update(k, with_force(q[k], fs[k])) =~= merged_prefix(ps, fs, k + 1));
            } else {
                assert(!prefix_fits(ps, fs, k + 1));
            }
        } else {
            let bad = choose|q: int| 0 <= q < k && !force_fits(#[trigger] ps[q], fs[q]);
            assert(!force_fits(ps[bad], fs[bad]));
        }
    } else {
        assert(merged_prefix(ps, fs, 0) =~= ps);
    }
}

/// The force on particle `i` from its neighbourhood.
fn force_on_particle(spec: &ParticleSpec, region: &SimRegion, ps: &Vec<ParticleBundle>, i: usize) -> (r:
    (i128, i128))
    requires
        force_inputs_ok(spec, region, ps@),
        i < ps@.len(),
    ensures
        (r.0 as int, r.1 as int) == force_on(spec.matrix(), region, ps@, i as int),
{
    let p = ps[i];
    assert(particle_in_range(ps@[i as int]));
    let nbrs = region.get_entities_by_position(p.position.x, p.position.y);
    proof {
        let c = region.coords_of(p.position.x as int, p.position.y as int);
        region.lemma_gather_indexed(positions(ps@), region.neighbor_keys(c.0, c.1));
    }
    let mut ax: i128 = 0;
    let mut ay: i128 = 0;
    let mut k: usize = 0;
    while k < nbrs.len()
        invariant
            k <= nbrs@.len(),
            force_inputs_ok(spec, region, ps@),
            i < ps@.len(),
            p == ps@[i as int],
            nbrs@ == region.neighbors_of_position(p.position.x as int, p.position.y as int),
            forall|q: int| 0 <= q < nbrs@.len() ==> (#[trigger] nbrs@[q] as int) < ps@.len(),
            (ax as int, ay as int) == force_sum(
                spec.matrix(),
                region,
                ps@,
                i as int,
                nbrs@.take(k as int),
            ),
            abs(ax as int) <= k * PAIR_BOUND,
            abs(ay as int) <= k * PAIR_BOUND,
        decreases nbrs.len() - k,
    {
        let j = nbrs[k];
        proof {
            assert(nbrs@.take(k + 1).drop_last() =~= nbrs@.take(k as int));
            assert(nbrs@.take(k + 1).last() == j);
        }
        if j != i {
            assert((j as int) < ps@.len());
            assert(particle_in_range(ps@[j as int]));
            let f = pair_force_exec(spec, region, p, ps[j]);
            assert((k + 1) * PAIR_BOUND <= 0x7fff_ffff_ffff_ffff_ffff_ffff_ffff_ffff) by (
            nonlinear_arith)
                requires
                    k < usize::MAX,
                    usize::MAX <= 0xffff_ffff_ffff_ffff,
                    PAIR_BOUND == 0x8000_0000_0000_0000,
            ;
            assert(k * PAIR_BOUND + PAIR_BOUND == (k + 1) * PAIR_BOUND) by (nonlinear_arith);
            ax = ax + f.0;
            ay = ay + f.1;
        }
        assert(k * PAIR_BOUND <= (k + 1) * PAIR_BOUND) by (nonlinear_arith);
        k = k + 1;
    }
    assert(nbrs@.take(nbrs@.len() as int) =~= nbrs@);
    (ax, ay)
}

/// The forces on particles `start .. end`, each paired with its handle: the
/// work of one worker, merged afterwards.
pub fn compute_force_batch(
    particle_spec: &ParticleSpec,
    sim_region: &SimRegion,
    particles: &Vec<ParticleBundle>,
    start: usize,
    end: usize,
) -> (r: Vec<ForceContribution>)
    requires
        force_inputs_ok(particle_spec, sim_region, particles@),
        start <= end <= particles@.len(),
    ensures
        r@.len() == end - start,
        forall|q: int|
            0 <= q < r@.len() ==> (#[trigger] r@[q]).particle == start + q && (
            r@[q].x as int,
            r@[q].y as int,
            ) == force_on(particle_spec.matrix(), sim_region, particles@, start + q),
{
    let mut out: Vec<ForceContribution> = Vec::new();
    let mut i: usize = start;
    while i < end
        invariant
            start <= i <= end <= particles@.len(),
            force_inputs_ok(particle_spec, sim_region, particles@),
            out@.len() == i - start,
            forall|q: int|
                0 <= q < out@.len() ==> (#[trigger] out@[q]).particle == start + q && (
                out@[q].x as int,
                out@[q].y as int,
                ) == force_on(particle_spec.matrix(), sim_region, particles@, start + q),
        decreases end - i,
    {
        let (x, y) = force_on_particle(particle_spec, sim_region, particles, i);
        out.push(ForceContribution { particle: i, x, y });
        i = i + 1;
    }
    out
}

fn copy_particles(ps: &Vec<ParticleBundle>) -> (r: Vec<ParticleBundle>)
    ensures
        r@ == ps@,
{
    let mut out: Vec<ParticleBundle> = Vec::new();
    let mut i: usize = 0;
    while i < ps.len()
        invariant
            i <= ps@.len(),
            out@ == ps@.take(i as int),
        decreases ps.len() - i,
    {
        out.push(ps[i]);
        assert(ps@.take(i + 1) =~= ps@.take(i as int).push(ps@[i as int]));
        i = i + 1;
    }
    assert(ps@.take(ps@.len() as int) =~= ps@);
    out
}

/// Adds the workers' contributions, list after list, to the accelerations.
/// Where one names no particle or would take an acceleration out of `i64`,
/// nothing is changed.
pub fn merge_force_batches(
    particles: &mut Vec<ParticleBundle>,
    batches: &Vec<Vec<ForceContribution>>,
) -> (r: Result<(), SimError>)
    ensures
        match r {
            Ok(()) => add_contributions(old(particles)@, concat_batches(batches_view(batches@)))
                == Some(final(particles)@),
            Err(_) => add_contributions(
                old(particles)@,
                concat_batches(batches_view(batches@)),
            ) is None && final(particles)@ == old(particles)@,
        },
{
    let ghost bv = batches_view(batches@);
    let ghost orig = particles@;
    let mut next = copy_particles(particles);
    let mut b: usize = 0;
    assert(bv.take(0) =~= Seq::<Seq<ForceContribution>>::empty());
    while b < batches.len()
        invariant
            b <= batches@.len(),
            bv == batches_view(batches@),
            orig == particles@,
            add_contributions(orig, concat_batches(bv.take(b as int))) == Some(next@),
        decreases batches.len() - b,
    {
        let batch = &batches[b];
        let ghost pre = concat_batches(bv.take(b as int));
        assert(bv[b as int] == batch@);
        let mut c: usize = 0;
        assert(pre + batch@.take(0) =~= pre);
        while c < batch.len()
            invariant
                b < batches@.len(),
                c <= batch@.len(),
                bv == batches_view(batches@),
                bv[b as int] == batch@,
                orig == particles@,
                pre == concat_batches(bv.take(b as int)),
                add_contributions(orig, pre + batch@.take(c as int)) == Some(next@),
            decreases batch.len() - c,
        {
            let con = batch[c];
            let ghost cur = pre + batch@.take(c as int);
            let ghost nxt = pre + batch@.take(c + 1);
            assert(nxt.drop_last() =~= cur);
            assert(nxt.last() == con);
            let idx = con.particle;
            let fits = idx < next.len() && -0x1_0000_0000_0000_0000 <= con.x && con.x
                <= 0x1_0000_0000_0000_0000 && -0x1_0000_0000_0000_0000 <= con.y && con.y
                <= 0x1_0000_0000_0000_0000 && {
                let a = next[idx].acceleration.0;
                let nx = a.x as i128 + con.x;
                let ny = a.y as i128 + con.y;
                i64::MIN as i128 <= nx && nx <= i64::MAX as i128 && i64::MIN as i128 <= ny && ny
                    <= i64::MAX as i128
            };
            if !fits {
                proof {
                    assert(add_contributions(orig, nxt) is None);
                    let rest = batch@.skip(c + 1) + concat_batches(bv.skip(b + 1));
                    lemma_add_contributions_none(orig, nxt, rest);
                    assert(bv =~= bv.take(b + 1) + bv.skip(b + 1));
                    lemma_concat_batches_append(bv.take(b + 1), bv.skip(b + 1));
                    assert(bv.take(b + 1).drop_last() =~= bv.take(b as int));
                    assert(batch@ =~= batch@.take(c + 1) + batch@.skip(c + 1));
                    assert(nxt + rest =~= concat_batches(bv));
                }
                return Err(SimError::AccelerationOutOfRange { particle: idx });
            }
            let p = next[idx];
            let a = p.acceleration.0;
            let np = ParticleBundle {
                acceleration: Acceleration(
                    Vec2 { x: (a.x as i128 + con.x) as i64, y: (a.y as i128 + con.y) as i64 },
                ),
                ..p
            };
            next.set(idx, np);
            c = c + 1;
        }
        proof {
            assert(batch@.take(batch@.len() as int) =~= batch@);
            assert(bv.take(b + 1).drop_last() =~= bv.take(b as int));
        }
        b = b + 1;
    }
    assert(bv.take(bv.len() as int) =~= bv);
    *particles = next;
    Ok(())
}

/// Adds to every particle's acceleration the force from its neighbourhood,
/// computed for all particles first and merged afterwards. Nothing happens
/// while paused; nothing changes where an acceleration would leave `i64`.
pub fn compute_forces(
    particle_spec: &ParticleSpec,
    sim_region: &SimRegion,
    state: SimState,
    particles: &mut Vec<ParticleBundle>,
) -> (r: Result<(), SimError>)
    requires
        state == SimState::Running ==> force_inputs_ok(particle_spec, sim_region, old(particles)@),
    ensures
        state == SimState::Paused ==> r is Ok && final(particles)@ == old(particles)@,
        state == SimState::Running ==> {
            &&& (r is Ok <==> forces_fit(particle_spec.matrix(), sim_region, old(particles)@))
            &&& r is Ok ==> final(particles)@ == forces_applied(
                particle_spec.matrix(),
                sim_region,
                old(particles)@,
            )
            &&& r is Err ==> final(particles)@ == old(particles)@
        },
{
    if state == SimState::Paused {
        return Ok(());
    }
    let ghost ps = particles@;
    let ghost m = particle_spec.matrix();
    let n = particles.len();
    let batch = compute_force_batch(particle_spec, sim_region, particles, 0, n);
    let ghost cs = batch@;
    let mut batches: Vec<Vec<ForceContribution>> = Vec::new();
    batches.push(batch);
    let ghost fs = Seq::new(ps.len(), |i: int| force_on(m, sim_region, ps, i));
    proof {
        assert(batches_view(batches@) =~= seq![cs]);
        assert(seq![cs].drop_last() =~= Seq::<Seq<ForceContribution>>::empty());
        assert(concat_batches(Seq::<Seq<ForceContribution>>::empty()) == Seq::<
            ForceContribution,
        >::empty());
        assert(Seq::<ForceContribution>::empty() + cs =~= cs);
        assert(concat_batches(seq![cs]) == cs);
        lemma_merge_in_order(ps, fs, cs);
        if forces_fit(m, sim_region, ps) {
            assert(prefix_fits(ps, fs, cs.len() as int));
        }
        if prefix_fits(ps, fs, cs.len() as int) {
            assert forall|i: int| 0 <= i < ps.len() implies force_fits(
                #[trigger] ps[i],
                force_on(m, sim_region, ps, i),
            ) by {
                assert(force_fits(ps[i], fs[i]));
            }
        }
    }
    let r = merge_force_batches(particles, &batches);
    proof {
        assert(merged_prefix(ps, fs, cs.len() as int) =~= forces_applied(m, sim_region, ps));
    }
    r
}

/// Velocity in steps per second, inferred from the last position.
pub open spec fn velocity(p: ParticleBundle) -> (int, int) {
    (
        (p.position.x - p.last_pos.0.x) * STEPS_PER_SECOND,
        (p.position.y - p.last_pos.0.y) * STEPS_PER_SECOND,
    )
}

pub open spec fn speed_sq(p: ParticleBundle) -> int {
    velocity(p).0 * velocity(p).0 + velocity(p).1 * velocity(p).1
}

/// Quadratic drag `0.01 v |v|`, rounded toward zero.
pub open spec fn drag(p: ParticleBundle) -> (int, int) {
    let speed = sqrt_floor(speed_sq(p));
    (trunc_div(velocity(p).0 * speed, DRAG_DIVISOR as int), trunc_div(velocity(p).1 * speed, DRAG_DIVISOR as int))
}

/// The friction pass on one particle: at rest, its last position snaps to its
/// position; otherwise the drag is taken off its acceleration (`None` where
/// that leaves `i64`).
pub open spec fn friction_step(p: ParticleBundle) -> Option<ParticleBundle> {
    if speed_sq(p) < VELOCITY_THRESHOLD {
        Some(ParticleBundle { last_pos: LastPosition(p.position), ..p })
    } else if force_fits(p, (-drag(p).0, -drag(p).1)) {
        Some(with_force(p, (-drag(p).0, -drag(p).1)))
    } else {
        None
    }
}

/// The Verlet step on one particle: `2 x - x_last + a dt^2`, the old position
/// becoming the last one and the acceleration reset (`None` where the new
/// position leaves `COORD_LIMIT`).
pub open spec fn integrate_step(p: ParticleBundle) -> Option<ParticleBundle> {
    let nx = 2 * p.position.x - p.last_pos.0.x + trunc_div(
        p.acceleration.0.x as int,
        DT_SQ_DIVISOR as int,
    );
    let ny = 2 * p.position.y - p.last_pos.0.y + trunc_div(
        p.acceleration.0.y as int,
        DT_SQ_DIVISOR as int,
    );
    if abs(nx) <= COORD_LIMIT && abs(ny) <= COORD_LIMIT {
        Some(
            ParticleBundle {
                position: Vec2 { x: nx as i64, y: ny as i64 },
                last_pos: LastPosition(p.position),
                acceleration: Acceleration(Vec2 { x: 0, y: 0 }),
                interaction: p.interaction,
            },
        )
    } else {
        None
    }
}

/// One particle brought back into the domain: position and last position
/// shifted alike.
pub open spec fn wrap_step(region: &SimRegion, p: ParticleBundle) -> ParticleBundle {
    let ax = wrap_adjust(p.position.x as int, region.top_right.x as int);
    let ay = wrap_adjust(p.position.y as int, region.top_right.y as int);
    ParticleBundle {
        position: Vec2 { x: (p.position.x + ax) as i64, y: (p.position.y + ay) as i64 },
        last_pos: LastPosition(Vec2 { x: (p.last_pos.0.x + ax) as i64, y: (p.last_pos.0.y + ay) as i64 }),
        ..p
    }
}

pub open spec fn frictions_ok(ps: Seq<ParticleBundle>) -> bool {
    forall|i: int| 0 <= i < ps.len() ==> (#[trigger] friction_step(ps[i])) is Some
}

pub open spec fn frictions(ps: Seq<ParticleBundle>) -> Seq<ParticleBundle> {
    Seq::new(ps.len(), |i: int| friction_step(ps[i])->Some_0)
}

pub open spec fn integrations_ok(ps: Seq<ParticleBundle>) -> bool {
    forall|i: int| 0 <= i < ps.len() ==> (#[trigger] integrate_step(ps[i])) is Some
}

pub open spec fn integrations(ps: Seq<ParticleBundle>) -> Seq<ParticleBundle> {
    Seq::new(ps.len(), |i: int| integrate_step(ps[i])->Some_0)
}

pub open spec fn wraps(region: &SimRegion, ps: Seq<ParticleBundle>) -> Seq<ParticleBundle> {
    Seq::new(ps.len(), |i: int| wrap_step(region, ps[i]))
}

/// Friction, integration and wrap-around after the forces were added;
/// `None` where a stage leaves the fixed-point range.
pub open spec fn stages_after_forces(region: &SimRegion, a: Seq<ParticleBundle>) -> Option<
    Seq<ParticleBundle>,
> {
    if !frictions_ok(a) {
        None
    } else {
        let b = frictions(a);
        if !integrations_ok(b) {
            None
        } else {
            Some(wraps(region, integrations(b)))
        }
    }
}

/// The particles after one running tick: forces, friction, integration,
/// wrap-around; `None` where a stage leaves the fixed-point range.
pub open spec fn tick_outcome(
    m: Seq<Seq<i64>>,
    region: &SimRegion,
    ps: Seq<ParticleBundle>,
) -> Option<Seq<ParticleBundle>> {
    if !forces_fit(m, region, ps) {
        None
    } else {
        stages_after_forces(region, forces_applied(m, region, ps))
    }
}

/// The particles after a running tick whose force pass produced the
/// contributions `cs`, merged in order.
pub open spec fn tick_outcome_from(
    region: &SimRegion,
    ps: Seq<ParticleBundle>,
    cs: Seq<ForceContribution>,
) -> Option<Seq<ParticleBundle>> {
    match add_contributions(ps, cs) {
        Some(a) => stages_after_forces(region, a),
        None => None,
    }
}

/// `cs` holds, particle by particle in order, the force on each particle.
pub open spec fn contributions_in_order(
    m: Seq<Seq<i64>>,
    region: &SimRegion,
    ps: Seq<ParticleBundle>,
    cs: Seq<ForceContribution>,
) -> bool {
    &&& cs.len() == ps.len()
    &&& forall|q: int|
        0 <= q < cs.len() ==> (#[trigger] cs[q]).particle == q && (cs[q].x as int, cs[q].y as int)
            == force_on(m, region, ps, q)
}

/// A running tick that merges the force on every particle, in particle
/// order, ends where `tick_outcome` says.
pub proof fn lemma_in_order_contributions_give_tick_outcome(
    m: Seq<Seq<i64>>,
    region: &SimRegion,
    ps: Seq<ParticleBundle>,
    cs: Seq<ForceContribution>,
)
    requires
        contributions_in_order(m, region, ps, cs),
    ensures
        tick_outcome_from(region, ps, cs) == tick_outcome(m, region, ps),
{
    let fs = Seq::new(ps.len(), |i: int| force_on(m, region, ps, i));
    lemma_merge_in_order(ps, fs, cs);
    if forces_fit(m, region, ps) {
        assert(prefix_fits(ps, fs, cs.len() as int));
        assert(merged_prefix(ps, fs, cs.len() as int) =~= forces_applied(m, region, ps));
    }
    if prefix_fits(ps, fs, cs.len() as int) {
        assert forall|i: int| 0 <= i < ps.len() implies force_fits(
            #[trigger] ps[i],
            force_on(m, region, ps, i),
        ) by {
            assert(force_fits(ps[i], fs[i]));
        }
    }
}

proof fn lemma_add_contributions_frame(ps: Seq<ParticleBundle>, cs: Seq<ForceContribution>)
    requires
        add_contributions(ps, cs) is Some,
    ensures
        ({
            let a = add_contributions(ps, cs)->Some_0;
            &&& a.len() == ps.len()
            &&& forall|i: int|
                0 <= i < a.len() ==> (#[trigger] a[i]).position == ps[i].position && a[i].last_pos
                    == ps[i].last_pos && a[i].interaction == ps[i].interaction
        }),
    decreases cs.len(),
{
    if cs.len() > 0 {
        lemma_add_contributions_frame(ps, cs.drop_last());
    }
}

fn friction_of(p: ParticleBundle) -> (r: Option<ParticleBundle>)
    requires
        particle_in_range(p),
    ensures
        r == friction_step(p),
{
    let vx = (p.position.x as i128 - p.last_pos.0.x as i128) * STEPS_PER_SECOND as i128;
    let vy = (p.position.y as i128 - p.last_pos.0.y as i128) * STEPS_PER_SECOND as i128;
    assert(0 <= vx as int * vx as int <= 0x4_0000_0000_0000_0000_0000_0000) by (nonlinear_arith)
        requires
            abs(vx as int) <= 0x2_0000_0000_0000,
    ;
    assert(0 <= vy as int * vy as int <= 0x4_0000_0000_0000_0000_0000_0000) by (nonlinear_arith)
        requires
            abs(vy as int) <= 0x2_0000_0000_0000,
    ;
    let sq = vx * vx + vy * vy;
    if sq < VELOCITY_THRESHOLD {
        return Some(ParticleBundle { last_pos: LastPosition(p.position), ..p });
    }
    let speed = isqrt(sq as u128) as i128;
    proof {
        if speed > 0x4_0000_0000_0000 {
            lemma_square_monotone(0x4_0000_0000_0000, speed as int);
        }
    }
    assert(abs(vx as int * speed as int) <= 0x2_0000_0000_0000 * 0x4_0000_0000_0000) by (nonlinear_arith)
        requires
            abs(vx as int) <= 0x2_0000_0000_0000,
            0 <= speed <= 0x4_0000_0000_0000,
    ;
    assert(abs(vy as int * speed as int) <= 0x2_0000_0000_0000 * 0x4_0000_0000_0000) by (nonlinear_arith)
        requires
            abs(vy as int) <= 0x2_0000_0000_0000,
            0 <= speed <= 0x4_0000_0000_0000,
    ;
    let gx = trunc_div_i128(vx * speed, DRAG_DIVISOR);
    let gy = trunc_div_i128(vy * speed, DRAG_DIVISOR);
    proof {
        lemma_trunc_div_scaled(vx * speed, 1, DRAG_DIVISOR as int);
        lemma_trunc_div_scaled(vy * speed, 1, DRAG_DIVISOR as int);
    }
    let nx = p.acceleration.0.x as i128 - gx;
    let ny = p.acceleration.0.y as i128 - gy;
    if i64::MIN as i128 <= nx && nx <= i64::MAX as i128 && i64::MIN as i128 <= ny && ny
        <= i64::MAX as i128 {
        Some(
            ParticleBundle {
                acceleration: Acceleration(Vec2 { x: nx as i64, y: ny as i64 }),
                ..p
            },
        )
    } else {
        None
    }
}

/// The friction pass over all particles. Nothing happens while paused, and
/// nothing changes where an acceleration would leave `i64`.
pub fn compute_friction(state: SimState, particles: &mut Vec<ParticleBundle>) -> (r: Result<
    (),
    SimError,
>)
    requires
        state == SimState::Running ==> all_in_range(old(particles)@),
    ensures
        state == SimState::Paused ==> r is Ok && final(particles)@ == old(particles)@,
        state == SimState::Running ==> {
            &&& (r is Ok <==> frictions_ok(old(particles)@))
            &&& r is Ok ==> final(particles)@ == frictions(old(particles)@)
            &&& r is Err ==> final(particles)@ == old(particles)@
        },
{
    if state == SimState::Paused {
        return Ok(());
    }
    let ghost ps = particles@;
    let mut next: Vec<ParticleBundle> = Vec::new();
    let mut i: usize = 0;
    while i < particles.len()
        invariant
            i <= ps.len(),
            particles@ == ps,
            state == SimState::Running,
            all_in_range(ps),
            next@.len() == i,
            forall|j: int| 0 <= j < i ==> (#[trigger] friction_step(ps[j])) is Some && next@[j]
                == friction_step(ps[j])->Some_0,
        decreases ps.len() - i,
    {
        match friction_of(particles[i]) {
            Some(p) => next.push(p),
            None => {
                assert(!frictions_ok(ps));
                return Err(SimError::AccelerationOutOfRange { particle: i });
            },
        }
        i = i + 1;
    }
    assert(next@ =~= frictions(ps));
    *particles = next;
    Ok(())
}

fn integrate_one(p: ParticleBundle) -> (r: Option<ParticleBundle>)
    ensures
        r == integrate_step(p),
{
    let nx = 2 * p.position.x as i128 - p.last_pos.0.x as i128 + trunc_div_i128(
        p.acceleration.0.x as i128,
        DT_SQ_DIVISOR as i128,
    );
    let ny = 2 * p.position.y as i128 - p.last_pos.0.y as i128 + trunc_div_i128(
        p.acceleration.0.y as i128,
        DT_SQ_DIVISOR as i128,
    );
    if -(COORD_LIMIT as i128) <= nx && nx <= COORD_LIMIT as i128 && -(COORD_LIMIT as i128) <= ny
        && ny <= COORD_LIMIT as i128 {
        Some(
            ParticleBundle {
                position: Vec2 { x: nx as i64, y: ny as i64 },
                last_pos: LastPosition(p.position),
                acceleration: Acceleration(Vec2 { x: 0, y: 0 }),
                interaction: p.interaction,
            },
        )
    } else {
        None
    }
}

/// The Verlet step over all particles. Nothing happens while paused, and
/// nothing changes where a position would leave `COORD_LIMIT`.
pub fn integrate(state: SimState, particles: &mut Vec<ParticleBundle>) -> (r: Result<(), SimError>)
    ensures
        state == SimState::Paused ==> r is Ok && final(particles)@ == old(particles)@,
        state == SimState::Running ==> {
            &&& (r is Ok <==> integrations_ok(old(particles)@))
            &&& r is Ok ==> final(particles)@ == integrations(old(particles)@)
            &&& r is Err ==> final(particles)@ == old(particles)@
        },
{
    if state == SimState::Paused {
        return Ok(());
    }
    let ghost ps = particles@;
    let mut next: Vec<ParticleBundle> = Vec::new();
    let mut i: usize = 0;
    while i < particles.len()
        invariant
            i <= ps.len(),
            particles@ == ps,
            state == SimState::Running,
            next@.len() == i,
            forall|j: int| 0 <= j < i ==> (#[trigger] integrate_step(ps[j])) is Some && next@[j]
                == integrate_step(ps[j])->Some_0,
        decreases ps.len() - i,
    {
        match integrate_one(particles[i]) {
            Some(p) => next.push(p),
            None => {
                assert(!integrations_ok(ps));
                return Err(SimError::PositionOutOfRange { particle: i });
            },
        }
        i = i + 1;
    }
    assert(next@ =~= integrations(ps));
    *particles = next;
    Ok(())
}

/// Positions within `COORD_LIMIT` and last positions too, as integration
/// leaves them.
pub open spec fn integrated_in_range(ps: Seq<ParticleBundle>) -> bool {
    forall|i: int|
        0 <= i < ps.len() ==> {
            &&& abs((#[trigger] ps[i]).position.x as int) <= COORD_LIMIT
            &&& abs(ps[i].position.y as int) <= COORD_LIMIT
            &&& abs(ps[i].last_pos.0.x as int) <= COORD_LIMIT
            &&& abs(ps[i].last_pos.0.y as int) <= COORD_LIMIT
        }
}

/// Brings every particle back into the domain and moves it in the index from
/// the bucket of its last position, where integration left it indexed, to that
/// of its new position. Nothing happens while paused.
pub fn wrap_around(state: SimState, sim_region: &mut SimRegion, particles: &mut Vec<ParticleBundle>)
    requires
        state == SimState::Running ==> {
            &&& old(sim_region).wf()
            &&& old(sim_region).index_matches(last_positions(old(particles)@))
            &&& integrated_in_range(old(particles)@)
        },
    ensures
        state == SimState::Paused ==> final(particles)@ == old(particles)@ && *final(sim_region)
            == *old(sim_region),
        state == SimState::Running ==> {
            &&& final(particles)@ == wraps(old(sim_region), old(particles)@)
            &&& final(sim_region).wf()
            &&& final(sim_region).top_right == old(sim_region).top_right
            &&& final(sim_region).granularity == old(sim_region).granularity
            &&& final(sim_region).index_matches(positions(final(particles)@))
            &&& all_in_range(final(particles)@)
        },
{
    if state == SimState::Paused {
        return;
    }
    let ghost ps = particles@;
    let ghost r0 = *sim_region;
    let mut i: usize = 0;
    assert(last_positions(ps) =~= Seq::new(
        ps.len(),
        |j: int|
            if j < 0 {
                wrap_step(&r0, ps[j]).position
            } else {
                ps[j].last_pos.0
            },
    ));
    while i < particles.len()
        invariant
            i <= ps.len(),
            state == SimState::Running,
            particles@.len() == ps.len(),
            forall|j: int| 0 <= j < i ==> #[trigger] particles@[j] == wrap_step(&r0, ps[j]),
            forall|j: int| i <= j < ps.len() ==> #[trigger] particles@[j] == ps[j],
            integrated_in_range(ps),
            sim_region.wf(),
            sim_region.top_right == r0.top_right,
            sim_region.granularity == r0.granularity,
            sim_region.index_matches(
                Seq::new(
                    ps.len(),
                    |j: int|
                        if j < i {
                            wrap_step(&r0, ps[j]).position
                        } else {
                            ps[j].last_pos.0
                        },
                ),
            ),
        decreases ps.len() - i,
    {
        let p = particles[i];
        assert(p == ps[i as int]);
        let x_old = p.last_pos.0.x;
        let y_old = p.last_pos.0.y;
        let adjustment = sim_region.get_wrap_around_adjustment(p.position);
        let np = ParticleBundle {
            position: Vec2 { x: p.position.x + adjustment.x, y: p.position.y + adjustment.y },
            last_pos: LastPosition(
                Vec2 { x: p.last_pos.0.x + adjustment.x, y: p.last_pos.0.y + adjustment.y },
            ),
            ..p
        };
        assert(np == wrap_step(&r0, ps[i as int]));
        let ghost idx = Seq::new(
            ps.len(),
            |j: int|
                if j < i {
                    wrap_step(&r0, ps[j]).position
                } else {
                    ps[j].last_pos.0
                },
        );
        proof {
            lemma_indexed_contains(sim_region, idx, i as int);
        }
        sim_region.move_entity(i, x_old, y_old, np.position.x, np.position.y);
        proof {
            assert(idx[i as int] == Vec2 { x: x_old, y: y_old });
            assert(idx.update(i as int, Vec2 { x: np.position.x, y: np.position.y }) =~= Seq::new(
                ps.len(),
                |j: int|
                    if j < i + 1 {
                        wrap_step(&r0, ps[j]).position
                    } else {
                        ps[j].last_pos.0
                    },
            ));
        }
        particles.set(i, np);
        i = i + 1;
    }
    proof {
        assert(particles@ =~= wraps(&r0, ps));
        assert(positions(particles@) =~= Seq::new(
            ps.len(),
            |j: int|
                if j < i {
                    wrap_step(&r0, ps[j]).position
                } else {
                    ps[j].last_pos.0
                },
        ));
    }
}

proof fn lemma_indexed_contains(region: &SimRegion, pos: Seq<Vec2>, h: int)
    requires
        region.index_matches(pos),
        0 <= h < pos.len(),
    ensures
        region.bucket(
            region.coords_of(pos[h].x as int, pos[h].y as int).0,
            region.coords_of(pos[h].x as int, pos[h].y as int).1,
        ).contains(h as usize),
{
    assert(region.bucket_at(pos[h]).contains(h as usize));
}

/// One tick of the pipeline from force contributions the workers computed:
/// merge, friction, integration, then wrap-around with the index following
/// the particles. While paused nothing changes; where a stage fails the tick
/// changes nothing and reports the particle.
pub fn tick_with_forces(
    particle_spec: &ParticleSpec,
    sim_region: &mut SimRegion,
    state: SimState,
    particles: &mut Vec<ParticleBundle>,
    batches: &Vec<Vec<ForceContribution>>,
) -> (r: Result<(), SimError>)
    requires
        state == SimState::Running ==> force_inputs_ok(
            particle_spec,
            old(sim_region),
            old(particles)@,
        ),
    ensures
        force_inputs_ok(particle_spec, old(sim_region), old(particles)@) ==> force_inputs_ok(
            particle_spec,
            final(sim_region),
            final(particles)@,
        ),
        final(sim_region).top_right == old(sim_region).top_right,
        final(sim_region).granularity == old(sim_region).granularity,
        state == SimState::Paused ==> r is Ok && final(particles)@ == old(particles)@
            && *final(sim_region) == *old(sim_region),
        state == SimState::Running ==> {
            let outcome = tick_outcome_from(
                old(sim_region),
                old(particles)@,
                concat_batches(batches_view(batches@)),
            );
            &&& (r is Ok <==> outcome is Some)
            &&& r is Ok ==> final(particles)@ == outcome->Some_0
            &&& r is Err ==> final(particles)@ == old(particles)@ && *final(sim_region)
                == *old(sim_region)
        },
{
    if state == SimState::Paused {
        return Ok(());
    }
    let ghost ps = particles@;
    let ghost m = particle_spec.matrix();
    let ghost cs = concat_batches(batches_view(batches@));
    let mut work = copy_particles(particles);
    match merge_force_batches(&mut work, batches) {
        Ok(()) => {},
        Err(e) => {
            return Err(e);
        },
    }
    let ghost a = work@;
    proof {
        lemma_add_contributions_frame(ps, cs);
    }
    assert(all_in_range(a)) by {
        assert forall|i: int| 0 <= i < a.len() implies particle_in_range(#[trigger] a[i]) by {
            assert(particle_in_range(ps[i]));
        }
    }
    match compute_friction(state, &mut work) {
        Ok(()) => {},
        Err(e) => {
            return Err(e);
        },
    }
    let ghost b = work@;
    match integrate(state, &mut work) {
        Ok(()) => {},
        Err(e) => {
            return Err(e);
        },
    }
    let ghost c = work@;
    proof {
        assert(last_positions(c) =~= positions(ps)) by {
            assert forall|i: int| 0 <= i < c.len() implies #[trigger] last_positions(c)[i] == positions(
                ps,
            )[i] by {
                assert(integrate_step(b[i]) is Some);
                assert(friction_step(a[i]) is Some);
            }
        }
        assert forall|i: int| 0 <= i < c.len() implies {
            &&& abs((#[trigger] c[i]).position.x as int) <= COORD_LIMIT
            &&& abs(c[i].position.y as int) <= COORD_LIMIT
            &&& abs(c[i].last_pos.0.x as int) <= COORD_LIMIT
            &&& abs(c[i].last_pos.0.y as int) <= COORD_LIMIT
        } by {
            assert(integrate_step(b[i]) is Some);
            assert(friction_step(a[i]) is Some);
            assert(particle_in_range(ps[i]));
        }
    }
    wrap_around(state, sim_region, &mut work);
    proof {
        assert forall|i: int| 0 <= i < work@.len() implies (#[trigger] work@[i]).interaction.0
            < m.len() by {
            assert(integrate_step(b[i]) is Some);
            assert(friction_step(a[i]) is Some);
            assert(ps[i].interaction.0 < m.len());
        }
    }
    *particles = work;
    Ok(())
}

/// One tick of the pipeline: forces, friction, integration, then wrap-around
/// with the index following the particles. While paused nothing changes;
/// where a stage leaves the fixed-point range the tick changes nothing and
/// reports the particle.
pub fn tick(
    particle_spec: &ParticleSpec,
    sim_region: &mut SimRegion,
    state: SimState,
    particles: &mut Vec<ParticleBundle>,
) -> (r: Result<(), SimError>)
    requires
        state == SimState::Running ==> force_inputs_ok(
            particle_spec,
            old(sim_region),
            old(particles)@,
        ),
    ensures
        force_inputs_ok(particle_spec, old(sim_region), old(particles)@) ==> force_inputs_ok(
            particle_spec,
            final(sim_region),
            final(particles)@,
        ),
        final(sim_region).top_right == old(sim_region).top_right,
        final(sim_region).granularity == old(sim_region).granularity,
        state == SimState::Paused ==> r is Ok && final(particles)@ == old(particles)@
            && *final(sim_region) == *old(sim_region),
        state == SimState::Running ==> {
            &&& (r is Ok <==> tick_outcome(
                particle_spec.matrix(),
                old(sim_region),
                old(particles)@,
            ) is Some)
            &&& r is Ok ==> final(particles)@ == tick_outcome(
                particle_spec.matrix(),
                old(sim_region),
                old(particles)@,
            )->Some_0
            &&& r is Err ==> final(particles)@ == old(particles)@ && *final(sim_region)
                == *old(sim_region)
        },
{
    if state == SimState::Paused {
        return Ok(());
    }
    let n = particles.len();
    let batch = compute_force_batch(particle_spec, sim_region, particles, 0, n);
    let ghost cs = batch@;
    let mut batches: Vec<Vec<ForceContribution>> = Vec::new();
    batches.push(batch);
    proof {
        assert(batches_view(batches@) =~= seq![cs]);
        assert(seq![cs].drop_last() =~= Seq::<Seq<ForceContribution>>::empty());
        assert(concat_batches(Seq::<Seq<ForceContribution>>::empty()) == Seq::<
            ForceContribution,
        >::empty());
        assert(Seq::<ForceContribution>::empty() + cs =~= cs);
        assert(concat_batches(seq![cs]) == cs);
        lemma_in_order_contributions_give_tick_outcome(
            particle_spec.matrix(),
            sim_region,
            particles@,
            cs,
        );
    }
    tick_with_forces(particle_spec, sim_region, state, particles, &batches)
}

/// One running tick from `(r0, p0)` to `(r1, p1)`: the particles are the
/// tick's outcome and the index, over the same domain, matches them.
pub open spec fn tick_step(
    m: Seq<Seq<i64>>,
    r0: SimRegion,
    p0: Seq<ParticleBundle>,
    r1: SimRegion,
    p1: Seq<ParticleBundle>,
) -> bool {
    &&& tick_outcome(m, &r0, p0) == Some(p1)
    &&& r1.wf()
    &&& r1.top_right == r0.top_right
    &&& r1.granularity == r0.granularity
    &&& r1.index_matches(positions(p1))
}

/// `rs` and `ps` are the states a run passes through, each reached from the
/// one before by a running tick.
pub open spec fn is_run(m: Seq<Seq<i64>>, rs: Seq<SimRegion>, ps: Seq<Seq<ParticleBundle>>) -> bool {
    &&& rs.len() >= 1
    &&& ps.len() == rs.len()
    &&& forall|k: int|
        0 <= k < rs.len() - 1 ==> tick_step(m, #[trigger] rs[k], ps[k], rs[k + 1], ps[k + 1])
}

proof fn lemma_run_extend(
    m: Seq<Seq<i64>>,
    rs: Seq<SimRegion>,
    ps: Seq<Seq<ParticleBundle>>,
    r1: SimRegion,
    p1: Seq<ParticleBundle>,
)
    requires
        is_run(m, rs, ps),
        tick_step(m, rs.last(), ps.last(), r1, p1),
    ensures
        is_run(m, rs.push(r1), ps.push(p1)),
{
    let nrs = rs.push(r1);
    let nps = ps.push(p1);
    assert forall|k: int| 0 <= k < nrs.len() - 1 implies tick_step(
        m,
        #[trigger] nrs[k],
        nps[k],
        nrs[k + 1],
        nps[k + 1],
    ) by {
        if k < rs.len() - 1 {
            assert(nrs[k] == rs[k] && nrs[k + 1] == rs[k + 1]);
            assert(nps[k] == ps[k] && nps[k + 1] == ps[k + 1]);
            assert(tick_step(m, rs[k], ps[k], rs[k + 1], ps[k + 1]));
        } else {
            assert(nrs[k] == rs.last() && nps[k] == ps.last());
        }
    }
}

/// Runs `ticks` ticks one after another, stopping at the first that fails.
/// Running, the call passes through a run of ticks from the initial state to
/// the final one: all `ticks` of them on success; on failure, fewer, ending
/// in a state from which the next tick fails. While paused nothing changes,
/// however many ticks are asked for.
pub fn advance(
    particle_spec: &ParticleSpec,
    sim_region: &mut SimRegion,
    state: SimState,
    particles: &mut Vec<ParticleBundle>,
    ticks: usize,
) -> (r: Result<(), SimError>)
    requires
        state == SimState::Running ==> force_inputs_ok(
            particle_spec,
            old(sim_region),
            old(particles)@,
        ),
    ensures
        force_inputs_ok(particle_spec, old(sim_region), old(particles)@) ==> force_inputs_ok(
            particle_spec,
            final(sim_region),
            final(particles)@,
        ),
        state == SimState::Paused ==> r is Ok && final(particles)@ == old(particles)@
            && *final(sim_region) == *old(sim_region),
        state == SimState::Running ==> exists|rs: Seq<SimRegion>, ps: Seq<Seq<ParticleBundle>>|
            {
                &&& #[trigger] is_run(particle_spec.matrix(), rs, ps)
                &&& rs[0] == *old(sim_region)
                &&& ps[0] == old(particles)@
                &&& rs.last() == *final(sim_region)
                &&& ps.last() == final(particles)@
                &&& r is Ok ==> rs.len() == ticks + 1
                &&& r is Err ==> rs.len() <= ticks && tick_outcome(
                    particle_spec.matrix(),
                    final(sim_region),
                    final(particles)@,
                ) is None
            },
{
    let ghost p0 = particles@;
    let ghost r0 = *sim_region;
    let ghost m = particle_spec.matrix();
    let ghost mut rs: Seq<SimRegion> = seq![r0];
    let ghost mut pss: Seq<Seq<ParticleBundle>> = seq![p0];
    let mut n: usize = 0;
    while n < ticks
        invariant
            n <= ticks,
            m == particle_spec.matrix(),
            force_inputs_ok(particle_spec, &r0, p0) ==> force_inputs_ok(
                particle_spec,
                sim_region,
                particles@,
            ),
            state == SimState::Running ==> force_inputs_ok(particle_spec, &r0, p0),
            state == SimState::Paused ==> particles@ == p0 && *sim_region == r0,
            state == SimState::Running ==> {
                &&& is_run(m, rs, pss)
                &&& rs.len() == n + 1
                &&& rs[0] == r0
                &&& pss[0] == p0
                &&& rs.last() == *sim_region
                &&& pss.last() == particles@
            },
            r0 == *old(sim_region),
            p0 == old(particles)@,
        decreases ticks - n,
    {
        let ghost before_r = *sim_region;
        let ghost before_p = particles@;
        match tick(particle_spec, sim_region, state, particles) {
            Ok(()) => {},
            Err(e) => {
                proof {
                    if state == SimState::Running {
                        assert(tick_outcome(m, sim_region, particles@) is None);
                        assert(is_run(particle_spec.matrix(), rs, pss));
                    }
                }
                return Err(e);
            },
        }
        proof {
            if state == SimState::Running {
                assert(tick_step(m, before_r, before_p, *sim_region, particles@));
                lemma_run_extend(m, rs, pss, *sim_region, particles@);
                rs = rs.push(*sim_region);
                pss = pss.push(particles@);
            }
        }
        n = n + 1;
    }
    proof {
        if state == SimState::Running {
            assert(is_run(particle_spec.matrix(), rs, pss));
        }
    }
    Ok(())
}

/// The repulsion on `s` from `o`: `1000 - 100 d` along the delta, away from
/// `o`, and along -x where the two coincide.
pub open spec fn repulsion(dx: int, dy: int) -> (int, int) {
    let d = sqrt_floor(dx * dx + dy * dy);
    let mag = REPULSION_PEAK - 100 * d;
    if d == 0 {
        (-mag, 0)
    } else {
        (-trunc_div(mag * dx, d), -trunc_div(mag * dy, d))
    }
}

/// Two particles closer than the repulsion radius push each other apart by
/// the repulsion alone, whatever their types and the coefficients, with a
/// magnitude that is positive.
pub proof fn lemma_short_range_force_is_repulsion(
    m: Seq<Seq<i64>>,
    region: &SimRegion,
    s: ParticleBundle,
    o: ParticleBundle,
)
    requires
        ({
            let (dx, dy) = corrected_delta(region, s.position, o.position);
            dx * dx + dy * dy < REPULSION_RADIUS * REPULSION_RADIUS
        }),
    ensures
        ({
            let (dx, dy) = corrected_delta(region, s.position, o.position);
            &&& pair_force(m, region, s, o) == repulsion(dx, dy)
            &&& REPULSION_PEAK - 100 * sqrt_floor(dx * dx + dy * dy) > 0
        }),
{
    let (dx, dy) = corrected_delta(region, s.position, o.position);
    let dsq = dx * dx + dy * dy;
    assert(dx * dx >= 0 && dy * dy >= 0) by (nonlinear_arith);
    lemma_sqrt_floor_exists(dsq);
    let d = sqrt_floor(dsq);
    assert(REPULSION_RADIUS == 10_000_000);
    assert(REPULSION_RADIUS * REPULSION_RADIUS == 100_000_000_000_000) by (nonlinear_arith)
        requires
            REPULSION_RADIUS == 10_000_000,
    ;
    if d >= REPULSION_RADIUS {
        lemma_square_monotone(REPULSION_RADIUS as int, d);
    }
    assert(d < REPULSION_RADIUS);
    assert(dsq <= CUTOFF_SQ);
    assert(pair_force(m, region, s, o) == repulsion(dx, dy));
}

/// Within the repulsion radius the repulsion is positive while the kernel
/// vanishes at both ends of its support; within half the radius the
/// repulsion is at least as large as anything the kernel yields for a
/// coefficient of magnitude up to `COEFF_RANGE`.
pub proof fn lemma_repulsion_dominates(d: int, mag: int, x: int)
    requires
        0 <= d < REPULSION_RADIUS,
        abs(mag) <= COEFF_RANGE,
    ensures
        REPULSION_PEAK - 100 * d > 0,
        kernel(mag, KERNEL_MIDDLE as int, KERNEL_WIDTH as int, KERNEL_MIDDLE - KERNEL_WIDTH) == 0,
        kernel(mag, KERNEL_MIDDLE as int, KERNEL_WIDTH as int, KERNEL_MIDDLE + KERNEL_WIDTH) == 0,
        d <= REPULSION_RADIUS / 2 ==> REPULSION_PEAK - 100 * d >= abs(
            kernel(mag, KERNEL_MIDDLE as int, KERNEL_WIDTH as int, x),
        ),
{
    let t = KERNEL_WIDTH - abs(x - KERNEL_MIDDLE);
    let tt = if t > 0 {
        t
    } else {
        0
    };
    lemma_trunc_div_scaled(mag, tt, KERNEL_WIDTH as int);
    assert(mag * 0 == 0);
}

/// Between its ends and its centre the kernel with a non-negative magnitude
/// rises toward the centre and falls beyond it.
pub proof fn lemma_kernel_monotone(mag: int, x: int, y: int)
    requires
        mag >= 0,
        x <= y,
    ensures
        KERNEL_MIDDLE - KERNEL_WIDTH <= x && y <= KERNEL_MIDDLE ==> kernel(
            mag,
            KERNEL_MIDDLE as int,
            KERNEL_WIDTH as int,
            x,
        ) <= kernel(mag, KERNEL_MIDDLE as int, KERNEL_WIDTH as int, y),
        KERNEL_MIDDLE <= x && y <= KERNEL_MIDDLE + KERNEL_WIDTH ==> kernel(
            mag,
            KERNEL_MIDDLE as int,
            KERNEL_WIDTH as int,
            x,
        ) >= kernel(mag, KERNEL_MIDDLE as int, KERNEL_WIDTH as int, y),
{
    let w = KERNEL_WIDTH as int;
    let tx = w - abs(x - KERNEL_MIDDLE);
    let ty = w - abs(y - KERNEL_MIDDLE);
    if KERNEL_MIDDLE - KERNEL_WIDTH <= x && y <= KERNEL_MIDDLE {
        assert(0 <= tx <= ty);
        assert(mag * tx <= mag * ty) by (nonlinear_arith)
            requires
                mag >= 0,
                tx <= ty,
        ;
        assert(mag * tx >= 0) by (nonlinear_arith)
            requires
                mag >= 0,
                tx >= 0,
        ;
        vstd::arithmetic::div_mod::lemma_div_is_ordered(mag * tx, mag * ty, w);
    }
    if KERNEL_MIDDLE <= x && y <= KERNEL_MIDDLE + KERNEL_WIDTH {
        assert(0 <= ty <= tx);
        assert(mag * ty <= mag * tx) by (nonlinear_arith)
            requires
                mag >= 0,
                ty <= tx,
        ;
        assert(mag * ty >= 0) by (nonlinear_arith)
            requires
                mag >= 0,
                ty >= 0,
        ;
        vstd::arithmetic::div_mod::lemma_div_is_ordered(mag * ty, mag * tx, w);
    }
}

} // verus!
