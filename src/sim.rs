//! The force simulation: configuration, one integration step with exact contracts,
//! and the state machine that repeats it until convergence or the iteration cap.
use vstd::prelude::*;
use crate::geom::{
    Vec2, COORD_LIMIT, in_box, force_bounded, clamp_to, div_trunc, isqrt,
    integer_sqrt, lemma_component_le_length, lemma_isqrt_bounds,
};
use crate::graph::{LinkNode, graph_wf};
use crate::grid::{build_grid, near};
use crate::forces::{
    REPULSION_LIMIT, ATTRACTION_LIMIT, RADIUS_LIMIT, all_in_box, as_pairs, repulsion_acc,
    collision_acc, links_applied, dist, repulsion_forces, collision_corrections, add_attraction,
    lemma_div_trunc_exact_bound,
};

verus! {

/// The tunable constants of a layout, in simulation units.
#[derive(Clone, Copy, Debug)]
pub struct LayoutConfig {
    /// Repulsion between two nodes is `repulsion_constant / d^2`.
    pub repulsion_constant: i64,
    /// A link pulls with `attraction_constant * d / 1000`.
    pub attraction_constant: i64,
    /// Nodes closer than twice this radius are pushed apart.
    pub node_radius: i64,
    /// No node moves further than this in one step: its force and its overlap
    /// correction together are limited to this length.
    pub max_step_displacement: i64,
    /// The layout has converged once the summed force length falls below this.
    pub convergence_threshold: u64,
    /// The number of steps after which the simulation stops.
    pub max_iterations: usize,
    pub canvas_width: i64,
    pub canvas_height: i64,
    /// Distance of the cluster centres from the canvas centre.
    pub cluster_ring_radius: i64,
    /// Distance of a cluster's members from the cluster's centre.
    pub cluster_inner_radius: i64,
}

/// The largest canvas side and the largest ring radius.
pub const CANVAS_LIMIT: i64 = 536870912;
pub const RING_LIMIT: i64 = 134217728;

pub open spec fn config_wf(c: LayoutConfig) -> bool {
    &&& 0 <= c.repulsion_constant <= REPULSION_LIMIT
    &&& 0 <= c.attraction_constant <= ATTRACTION_LIMIT
    &&& 0 <= c.node_radius <= RADIUS_LIMIT
    &&& 0 <= c.max_step_displacement <= COORD_LIMIT
    &&& 1 <= c.canvas_width <= CANVAS_LIMIT
    &&& 1 <= c.canvas_height <= CANVAS_LIMIT
    &&& 0 <= c.cluster_ring_radius <= RING_LIMIT
    &&& 0 <= c.cluster_inner_radius <= RING_LIMIT
}

impl LayoutConfig {
    /// A parameter set for an 800 x 600 canvas.
    pub fn standard() -> (c: LayoutConfig)
        ensures
            config_wf(c),
            c.repulsion_constant == 1000000 && c.attraction_constant == 100,
            c.node_radius == 20 && c.max_step_displacement == 20,
            c.convergence_threshold == 30 && c.max_iterations == 2000,
            c.canvas_width == 800 && c.canvas_height == 600,
            c.cluster_ring_radius == 200 && c.cluster_inner_radius == 10,
    {
        LayoutConfig {
            repulsion_constant: 1000000,
            attraction_constant: 100,
            node_radius: 20,
            max_step_displacement: 20,
            convergence_threshold: 30,
            max_iterations: 2000,
            canvas_width: 800,
            canvas_height: 600,
            cluster_ring_radius: 200,
            cluster_inner_radius: 10,
        }
    }
}

/// Grid cells of side `sqrt(area / n)`, at least one unit, so that a cell holds
/// about one node.
pub open spec fn cell_size_for(c: LayoutConfig, n: int) -> int {
    let area = c.canvas_width * c.canvas_height;
    let s = isqrt((area / if n < 1 {
        1
    } else {
        n
    }) as nat) as int;
    if s < 1 {
        1
    } else {
        s
    }
}

/// The repulsion on every node.
pub open spec fn repulsion_all(pos: Seq<Vec2>, c: LayoutConfig) -> Seq<(int, int)> {
    let cs = cell_size_for(c, pos.len() as int);
    Seq::new(
        pos.len(),
        |i: int| repulsion_acc(pos, c.repulsion_constant as int, i, near(pos, cs, pos[i])),
    )
}

/// The net force on every node: repulsion, then the pull of every link.
pub open spec fn net_forces(g: Seq<LinkNode>, pos: Seq<Vec2>, c: LayoutConfig) -> Seq<(int, int)> {
    links_applied(g, pos, c.attraction_constant as int, repulsion_all(pos, c), g.len() as int)
}

/// Collision cells have side `2 * node_radius` (at least one unit), so that any two
/// overlapping nodes lie in neighbouring cells.
pub open spec fn collision_cell_for(c: LayoutConfig) -> int {
    if 2 * c.node_radius < 1 {
        1
    } else {
        2 * c.node_radius
    }
}

/// The overlap correction of every node, against the nodes of its collision block.
pub open spec fn corrections_all(pos: Seq<Vec2>, c: LayoutConfig) -> Seq<(int, int)> {
    let cs = collision_cell_for(c);
    Seq::new(
        pos.len(),
        |i: int| collision_acc(pos, c.node_radius as int, i, near(pos, cs, pos[i])),
    )
}

/// The length of a force, rounded down.
pub open spec fn force_len(f: (int, int)) -> int {
    isqrt((f.0 * f.0 + f.1 * f.1) as nat) as int
}

/// `f` scaled down to length `m` where it is longer.
pub open spec fn limited(f: (int, int), m: int) -> (int, int) {
    let len = force_len(f);
    if len > m {
        (div_trunc(f.0 * m, len), div_trunc(f.1 * m, len))
    } else {
        f
    }
}

/// The displacement a force causes: limited to `m`, then halved (toward zero).
pub open spec fn damped(f: (int, int), m: int) -> (int, int) {
    let l = limited(f, m);
    (div_trunc(l.0, 2), div_trunc(l.1, 2))
}

/// Where a node at `p` goes under force `f` and overlap correction `k`: their sum is
/// limited to `m` and halved, and the result kept in the box.
pub open spec fn moved(p: Vec2, f: (int, int), k: (int, int), m: int) -> Vec2 {
    let s = damped((f.0 + k.0, f.1 + k.1), m);
    Vec2 {
        x: clamp_to(p.x + s.0, -COORD_LIMIT as int, COORD_LIMIT as int) as i64,
        y: clamp_to(p.y + s.1, -COORD_LIMIT as int, COORD_LIMIT as int) as i64,
    }
}

/// The summed length of the forces, saturated at `u64::MAX`.
pub open spec fn total_force(fs: Seq<(int, int)>) -> int
    decreases fs.len(),
{
    if fs.len() == 0 {
        0
    } else {
        clamp_to(total_force(fs.drop_last()) + force_len(fs.last()), 0, u64::MAX as int)
    }
}

/// The positions after one step.
pub open spec fn next_positions(g: Seq<LinkNode>, pos: Seq<Vec2>, c: LayoutConfig) -> Seq<Vec2> {
    let f = net_forces(g, pos, c);
    let k = corrections_all(pos, c);
    Seq::new(pos.len(), |i: int| moved(pos[i], f[i], k[i], c.max_step_displacement as int))
}

/// The positions after `k` steps.
pub open spec fn steps(g: Seq<LinkNode>, pos: Seq<Vec2>, c: LayoutConfig, k: nat) -> Seq<Vec2>
    decreases k,
{
    if k == 0 {
        pos
    } else {
        next_positions(g, steps(g, pos, c, (k - 1) as nat), c)
    }
}

/// The summed force length of step `j` (counted from 0) from `pos`.
pub open spec fn step_total(g: Seq<LinkNode>, pos: Seq<Vec2>, c: LayoutConfig, j: nat) -> int {
    total_force(net_forces(g, steps(g, pos, c, j), c))
}

proof fn lemma_limited_bound(f: (int, int), m: int)
    requires
        m >= 0,
    ensures
        force_len(f) > m ==> -m <= limited(f, m).0 <= m && -m <= limited(f, m).1 <= m,
{
    let len = force_len(f);
    if len > m {
        lemma_component_le_length(f.0, f.1);
        lemma_component_le_length(f.1, f.0);
        assert(f.1 * f.1 + f.0 * f.0 == f.0 * f.0 + f.1 * f.1);
        assert(-(len * m) <= f.0 * m <= len * m) by (nonlinear_arith)
            requires
                -len <= f.0 <= len,
                m >= 0,
        ;
        assert(-(len * m) <= f.1 * m <= len * m) by (nonlinear_arith)
            requires
                -len <= f.1 <= len,
                m >= 0,
        ;
        lemma_div_trunc_exact_bound(f.0 * m, len, m);
        lemma_div_trunc_exact_bound(f.1 * m, len, m);
    }
}

/// A node moves at most `m` in one step.
pub proof fn lemma_moved_within(p: Vec2, f: (int, int), k: (int, int), m: int)
    requires
        in_box(p),
        m >= 0,
    ensures
        dist(moved(p, f, k, m), p) <= m,
{
    let g = (f.0 + k.0, f.1 + k.1);
    let l = limited(g, m);
    let s = damped(g, m);
    lemma_limited_bound(g, m);
    if force_len(g) <= m {
        lemma_component_le_length(g.0, g.1);
        lemma_component_le_length(g.1, g.0);
        assert(g.1 * g.1 + g.0 * g.0 == g.0 * g.0 + g.1 * g.1);
    }
    assert(-m <= l.0 <= m && -m <= l.1 <= m);
    assert(-m <= 2 * s.0 <= m && -m <= 2 * s.1 <= m);
    let q = moved(p, f, k, m);
    let lim = COORD_LIMIT as int;
    let qx = clamp_to(p.x + s.0, -lim, lim);
    let qy = clamp_to(p.y + s.1, -lim, lim);
    assert(q.x == qx && q.y == qy);
    let dx = q.x - p.x;
    let dy = q.y - p.y;
    assert(-m <= 2 * dx <= m && -m <= 2 * dy <= m);
    assert(dx * dx + dy * dy <= m * m) by (nonlinear_arith)
        requires
            -m <= 2 * dx <= m,
            -m <= 2 * dy <= m,
    ;
    assert(dx * dx >= 0 && dy * dy >= 0) by (nonlinear_arith);
    let n = (dx * dx + dy * dy) as nat;
    lemma_isqrt_bounds(n);
    let r = isqrt(n) as int;
    assert(r <= m) by (nonlinear_arith)
        requires
            r * r <= n,
            n <= m * m,
            r >= 0,
            m >= 0,
    ;
}

/// Moves every node by its force plus its overlap correction, limited to `max_step`
/// and halved, and returns the new positions with the summed force length (of the
/// forces alone, taken before limiting). No node moves further than `max_step`.
pub fn integrate(positions: &Vec<Vec2>, forces: &Vec<Vec2>, corrections: &Vec<Vec2>, max_step: i64) -> (r: (Vec<Vec2>, u64))
    requires
        all_in_box(positions@),
        forces@.len() == positions@.len(),
        corrections@.len() == positions@.len(),
        forall|i: int| 0 <= i < forces@.len() ==> force_bounded(#[trigger] forces@[i]),
        forall|i: int| 0 <= i < corrections@.len() ==> force_bounded(#[trigger] corrections@[i]),
        0 <= max_step <= COORD_LIMIT,
    ensures
        r.0@.len() == positions@.len(),
        all_in_box(r.0@),
        forall|i: int| 0 <= i < positions@.len() ==> #[trigger] r.0@[i] == moved(
            positions@[i],
            as_pairs(forces@)[i],
            as_pairs(corrections@)[i],
            max_step as int,
        ),
        r.1 == total_force(as_pairs(forces@)),
        forall|i: int| 0 <= i < positions@.len() ==> dist(#[trigger] r.0@[i], positions@[i]) <= max_step,
{
    let n = positions.len();
    let mut out: Vec<Vec2> = Vec::new();
    let mut total: u64 = 0;
    let mut i: usize = 0;
    while i < n
        invariant
            n == positions@.len(),
            forces@.len() == n,
            corrections@.len() == n,
            forall|j: int| 0 <= j < n ==> force_bounded(#[trigger] forces@[j]),
            forall|j: int| 0 <= j < n ==> force_bounded(#[trigger] corrections@[j]),
            all_in_box(positions@),
            0 <= max_step <= COORD_LIMIT,
            i <= n,
            out@.len() == i,
            all_in_box(out@),
            forall|j: int| 0 <= j < i ==> #[trigger] out@[j] == moved(
                positions@[j],
                as_pairs(forces@)[j],
                as_pairs(corrections@)[j],
                max_step as int,
            ),
            total == total_force(as_pairs(forces@).subrange(0, i as int)),
            forall|j: int| 0 <= j < i ==> dist(#[trigger] out@[j], positions@[j]) <= max_step,
        decreases n - i,
    {
        let f = forces[i];
        let k = corrections[i];
        let p = positions[i];
        assert(force_bounded(forces@[i as int]));
        assert(force_bounded(corrections@[i as int]));
        assert(in_box(positions@[i as int]));
        assert((f.x as int) * (f.x as int) <= 1099511627776 * 1099511627776) by (nonlinear_arith)
            requires
                -1099511627776 <= f.x <= 1099511627776,
        ;
        assert((f.y as int) * (f.y as int) <= 1099511627776 * 1099511627776) by (nonlinear_arith)
            requires
                -1099511627776 <= f.y <= 1099511627776,
        ;
        assert(0 <= (f.x as int) * (f.x as int)) by (nonlinear_arith);
        assert(0 <= (f.y as int) * (f.y as int)) by (nonlinear_arith);
        let sq = ((f.x as i128) * (f.x as i128) + (f.y as i128) * (f.y as i128)) as u128;
        let len = integer_sqrt(sq);
        let ghost fp = (f.x as int, f.y as int);
        assert(len == force_len(fp));
        let gx: i128 = f.x as i128 + k.x as i128;
        let gy: i128 = f.y as i128 + k.y as i128;
        let ghost gp = (gx as int, gy as int);
        assert(gx * gx <= 2199023255552 * 2199023255552) by (nonlinear_arith)
            requires
                -2199023255552 <= gx <= 2199023255552,
        ;
        assert(gy * gy <= 2199023255552 * 2199023255552) by (nonlinear_arith)
            requires
                -2199023255552 <= gy <= 2199023255552,
        ;
        assert(0 <= gx * gx) by (nonlinear_arith);
        assert(0 <= gy * gy) by (nonlinear_arith);
        let gsq = (gx * gx + gy * gy) as u128;
        let glen = integer_sqrt(gsq);
        assert(glen == force_len(gp));
        let (sx, sy) = if glen > max_step as u64 {
            assert(-(2199023255552 * 1073741824) <= gx * (max_step as int) <= 2199023255552 * 1073741824) by (nonlinear_arith)
                requires
                    -2199023255552 <= gx <= 2199023255552,
                    0 <= max_step <= 1073741824,
            ;
            assert(-(2199023255552 * 1073741824) <= gy * (max_step as int) <= 2199023255552 * 1073741824) by (nonlinear_arith)
                requires
                    -2199023255552 <= gy <= 2199023255552,
                    0 <= max_step <= 1073741824,
            ;
            let ax = gx * (max_step as i128);
            let ay = gy * (max_step as i128);
            let l = glen as i128;
            let qx = if ax >= 0 { ax / l } else { -((-ax) / l) };
            let qy = if ay >= 0 { ay / l } else { -((-ay) / l) };
            proof {
                lemma_limited_bound(gp, max_step as int);
            }
            (qx, qy)
        } else {
            (gx, gy)
        };
        let hx: i128 = if sx >= 0 { sx / 2 } else { -((-sx) / 2) };
        let hy: i128 = if sy >= 0 { sy / 2 } else { -((-sy) / 2) };
        let nx = p.x as i128 + hx;
        let ny = p.y as i128 + hy;
        let cx: i64 = if nx < -(COORD_LIMIT as i128) {
            -COORD_LIMIT
        } else if nx > COORD_LIMIT as i128 {
            COORD_LIMIT
        } else {
            nx as i64
        };
        let cy: i64 = if ny < -(COORD_LIMIT as i128) {
            -COORD_LIMIT
        } else if ny > COORD_LIMIT as i128 {
            COORD_LIMIT
        } else {
            ny as i64
        };
        let ghost out0 = out@;
        out.push(Vec2 { x: cx, y: cy });
        let ghost prev = as_pairs(forces@).subrange(0, i as int);
        total = if (u64::MAX - total) < len {
            u64::MAX
        } else {
            total + len
        };
        proof {
            let next = as_pairs(forces@).subrange(0, i + 1);
            assert(next.drop_last() =~= prev);
            assert(next.last() == fp);
            assert(out@[i as int] == moved(positions@[i as int], as_pairs(forces@)[i as int], as_pairs(corrections@)[i as int], max_step as int));
            lemma_moved_within(positions@[i as int], as_pairs(forces@)[i as int], as_pairs(corrections@)[i as int], max_step as int);
            assert forall|j: int| 0 <= j <= i implies dist(#[trigger] out@[j], positions@[j]) <= max_step by {
                if j < i {
                    assert(out@[j] == out0[j]);
                }
            }
            assert forall|j: int| 0 <= j < out@.len() implies in_box(#[trigger] out@[j]) by {
                if j < i {
                    assert(out@[j] == out0[j]);
                }
            }
        }
        i += 1;
    }
    proof {
        assert(as_pairs(forces@).subrange(0, n as int) =~= as_pairs(forces@));
    }
    (out, total)
}

/// The grid cell side for `n` nodes on the configured canvas.
pub fn cell_size(config: &LayoutConfig, n: usize) -> (r: i64)
    requires
        config_wf(*config),
    ensures
        r == cell_size_for(*config, n as int),
        r >= 1,
{
    assert((config.canvas_width as int) * (config.canvas_height as int) <= 536870912 * 536870912) by (nonlinear_arith)
        requires
            1 <= config.canvas_width <= 536870912,
            1 <= config.canvas_height <= 536870912,
    ;
    assert((config.canvas_width as int) * (config.canvas_height as int) >= 1) by (nonlinear_arith)
        requires
            1 <= config.canvas_width,
            1 <= config.canvas_height,
    ;
    let area = (config.canvas_width as u128) * (config.canvas_height as u128);
    let count: u128 = if n < 1 {
        1
    } else {
        n as u128
    };
    let s = integer_sqrt(area / count);
    assert(s as int <= 536870912) by (nonlinear_arith)
        requires
            (s as int) * (s as int) <= area / count,
            area / count <= area,
            area <= 536870912 * 536870912,
    ;
    if s < 1 {
        1
    } else {
        s as i64
    }
}

/// One step of the simulation from `positions`: the new positions, the net force on
/// every node, and the summed length of those forces.
pub fn layout_step(graph: &Vec<LinkNode>, positions: &Vec<Vec2>, config: &LayoutConfig) -> (r: (
    Vec<Vec2>,
    Vec<Vec2>,
    u64,
))
    requires
        graph_wf(graph@),
        positions@.len() == graph@.len(),
        all_in_box(positions@),
        config_wf(*config),
    ensures
        r.0@ == next_positions(graph@, positions@, *config),
        as_pairs(r.1@) == net_forces(graph@, positions@, *config),
        r.2 == total_force(net_forces(graph@, positions@, *config)),
        all_in_box(r.0@),
        r.1@.len() == positions@.len(),
        forall|i: int| 0 <= i < positions@.len() ==> dist(#[trigger] r.0@[i], positions@[i]) <= config.max_step_displacement,
{
    let n = positions.len();
    let cs = cell_size(config, n);
    let grid = build_grid(positions, cs);
    let mut forces = repulsion_forces(positions, &grid, config.repulsion_constant);
    proof {
        assert(as_pairs(forces@) =~= repulsion_all(positions@, *config));
    }
    add_attraction(graph, positions, config.attraction_constant, &mut forces);
    let collision_cell: i64 = if 2 * config.node_radius < 1 {
        1
    } else {
        2 * config.node_radius
    };
    let collision_grid = build_grid(positions, collision_cell);
    let corrections = collision_corrections(positions, &collision_grid, config.node_radius);
    proof {
        assert(as_pairs(corrections@) =~= corrections_all(positions@, *config));
    }
    let (next, total) = integrate(positions, &forces, &corrections, config.max_step_displacement);
    proof {
        assert(next@ =~= next_positions(graph@, positions@, *config));
    }
    (next, forces, total)
}

/// Where a simulation stands.
#[derive(Clone, Copy, Debug, PartialEq, Eq, Structural)]
pub enum SimStatus {
    NotStarted,
    Initialized,
    Running,
    Converged,
    IterationCapReached,
}

/// The state of one simulation: positions, the last net forces, the number of steps
/// taken and the status.
pub struct Simulation {
    pub positions: Vec<Vec2>,
    pub forces: Vec<Vec2>,
    pub iteration: usize,
    pub status: SimStatus,
}

/// The simulation has stopped.
pub open spec fn finished(s: SimStatus) -> bool {
    s == SimStatus::Converged || s == SimStatus::IterationCapReached
}

/// The simulation fits the graph it runs on.
pub open spec fn sim_wf(s: Simulation, g: Seq<LinkNode>) -> bool {
    &&& s.positions@.len() == g.len()
    &&& s.forces@.len() == g.len()
    &&& all_in_box(s.positions@)
}

/// What is left to do, as a measure that every step lowers.
pub open spec fn steps_left(s: Simulation, c: LayoutConfig) -> int {
    if finished(s.status) || s.status == SimStatus::NotStarted {
        0
    } else if s.iteration < c.max_iterations {
        c.max_iterations - s.iteration + 1
    } else {
        1
    }
}

impl Simulation {
    /// A simulation of `n` nodes, all at the origin, not started.
    pub fn new(n: usize) -> (s: Simulation)
        ensures
            s.status == SimStatus::NotStarted,
            s.iteration == 0,
            s.positions@.len() == n,
            s.forces@.len() == n,
            forall|i: int| 0 <= i < n ==> #[trigger] s.positions@[i] == (Vec2 { x: 0, y: 0 }) && s.forces@[i] == (Vec2 { x: 0, y: 0 }),
    {
        let mut positions: Vec<Vec2> = Vec::new();
        let mut forces: Vec<Vec2> = Vec::new();
        let mut i: usize = 0;
        while i < n
            invariant
                i <= n,
                positions@.len() == i,
                forces@.len() == i,
                forall|j: int| 0 <= j < i ==> #[trigger] positions@[j] == (Vec2 { x: 0, y: 0 }) && forces@[j] == (Vec2 { x: 0, y: 0 }),
            decreases n - i,
        {
            positions.push(Vec2 { x: 0, y: 0 });
            forces.push(Vec2 { x: 0, y: 0 });
            i += 1;
        }
        Simulation { positions, forces, iteration: 0, status: SimStatus::NotStarted }
    }

    /// Takes the seeded positions of a simulation not yet started; it is then
    /// initialized, with no step taken.
    pub fn initialize(&mut self, positions: Vec<Vec2>)
        requires
            old(self).status == SimStatus::NotStarted,
            positions@.len() == old(self).forces@.len(),
        ensures
            final(self).positions@ == positions@,
            final(self).forces@ == old(self).forces@,
            final(self).iteration == 0,
            final(self).status == SimStatus::Initialized,
    {
        self.positions = positions;
        self.iteration = 0;
        self.status = SimStatus::Initialized;
    }

    /// One step of the state machine. A finished or unstarted simulation does not
    /// move. At the iteration cap the simulation stops where it is. Otherwise the
    /// nodes move by one layout step, and the simulation has converged when the
    /// summed force length fell below the threshold.
    pub fn step(&mut self, graph: &Vec<LinkNode>, config: &LayoutConfig)
        requires
            graph_wf(graph@),
            sim_wf(*old(self), graph@),
            config_wf(*config),
        ensures
            sim_wf(*final(self), graph@),
            steps_left(*final(self), *config) < steps_left(*old(self), *config) || steps_left(*old(self), *config) == 0,
            finished(old(self).status) || old(self).status == SimStatus::NotStarted ==> *final(self) == *old(self),
            !finished(old(self).status) && old(self).status != SimStatus::NotStarted && old(self).iteration >= config.max_iterations ==> {
                &&& final(self).positions@ == old(self).positions@
                &&& final(self).forces@ == old(self).forces@
                &&& final(self).iteration == old(self).iteration
                &&& final(self).status == SimStatus::IterationCapReached
            },
            !finished(old(self).status) && old(self).status != SimStatus::NotStarted && old(self).iteration < config.max_iterations ==> {
                &&& final(self).positions@ == next_positions(graph@, old(self).positions@, *config)
                &&& as_pairs(final(self).forces@) == net_forces(graph@, old(self).positions@, *config)
                &&& final(self).iteration == old(self).iteration + 1
                &&& forall|i: int| 0 <= i < final(self).positions@.len() ==> dist(#[trigger] final(self).positions@[i], old(self).positions@[i])
                    <= config.max_step_displacement
                &&& final(self).status == if total_force(net_forces(graph@, old(self).positions@, *config)) < config.convergence_threshold {
                    SimStatus::Converged
                } else {
                    SimStatus::Running
                }
            },
    {
        if self.status == SimStatus::Converged || self.status == SimStatus::IterationCapReached
            || self.status == SimStatus::NotStarted {
            return;
        }
        if self.iteration >= config.max_iterations {
            self.status = SimStatus::IterationCapReached;
            return;
        }
        let (next, forces, total) = layout_step(graph, &self.positions, config);
        self.positions = next;
        self.forces = forces;
        self.iteration = self.iteration + 1;
        if total < config.convergence_threshold {
            self.status = SimStatus::Converged;
        } else {
            self.status = SimStatus::Running;
        }
    }

    /// Steps until the simulation has converged or reached the iteration cap. A
    /// simulation that was never initialized does not move.
    pub fn run(&mut self, graph: &Vec<LinkNode>, config: &LayoutConfig)
        requires
            graph_wf(graph@),
            sim_wf(*old(self), graph@),
            config_wf(*config),
        ensures
            sim_wf(*final(self), graph@),
            old(self).status != SimStatus::NotStarted ==> finished(final(self).status),
            old(self).status == SimStatus::NotStarted ==> *final(self) == *old(self),
            finished(old(self).status) ==> *final(self) == *old(self),
            !finished(old(self).status) && old(self).iteration >= config.max_iterations ==> final(self).positions@ == old(self).positions@,
            final(self).iteration <= if old(self).iteration < config.max_iterations { config.max_iterations } else { old(self).iteration },
            final(self).status == SimStatus::Converged && !finished(old(self).status) ==> total_force(as_pairs(final(self).forces@)) < config.convergence_threshold,
            final(self).status == SimStatus::IterationCapReached && !finished(old(self).status) ==> final(self).iteration >= config.max_iterations,
            !finished(old(self).status) && old(self).status != SimStatus::NotStarted && old(self).iteration >= config.max_iterations ==> final(self).status == SimStatus::IterationCapReached,
            !finished(old(self).status) && old(self).status != SimStatus::NotStarted ==> final(self).iteration >= old(self).iteration
                && final(self).positions@ == steps(graph@, old(self).positions@, *config, (final(self).iteration - old(self).iteration) as nat),
            !finished(old(self).status) && old(self).status != SimStatus::NotStarted && final(self).status == SimStatus::Converged
                ==> final(self).iteration > old(self).iteration && step_total(graph@, old(self).positions@, *config,
                (final(self).iteration - old(self).iteration - 1) as nat) < config.convergence_threshold,
            !finished(old(self).status) && old(self).status != SimStatus::NotStarted ==> forall|j: nat|
                j < final(self).iteration - old(self).iteration && !(final(self).status == SimStatus::Converged && j
                    == final(self).iteration - old(self).iteration - 1) ==> #[trigger] step_total(graph@, old(self).positions@, *config, j)
                    >= config.convergence_threshold,
    {
        let ghost start = *self;
        while self.status == SimStatus::Initialized || self.status == SimStatus::Running
            invariant
                graph_wf(graph@),
                config_wf(*config),
                sim_wf(*self, graph@),
                start.status != SimStatus::NotStarted ==> self.status != SimStatus::NotStarted,
                start.status == SimStatus::NotStarted ==> *self == start,
                finished(start.status) ==> *self == start,
                !finished(start.status) && start.iteration >= config.max_iterations ==> self.positions@ == start.positions@ && self.iteration == start.iteration,
                self.iteration <= if start.iteration < config.max_iterations { config.max_iterations } else { start.iteration },
                self.status == SimStatus::Converged && !finished(start.status) ==> total_force(as_pairs(self.forces@)) < config.convergence_threshold,
                self.status == SimStatus::IterationCapReached && !finished(start.status) ==> self.iteration >= config.max_iterations,
                !finished(start.status) && start.status != SimStatus::NotStarted && start.iteration >= config.max_iterations ==> self.status != SimStatus::Converged,
                !finished(start.status) && start.status != SimStatus::NotStarted ==> self.iteration >= start.iteration
                    && self.positions@ == steps(graph@, start.positions@, *config, (self.iteration - start.iteration) as nat),
                !finished(start.status) && start.status != SimStatus::NotStarted && self.status == SimStatus::Converged
                    ==> self.iteration > start.iteration && step_total(graph@, start.positions@, *config,
                    (self.iteration - start.iteration - 1) as nat) < config.convergence_threshold,
                !finished(start.status) && start.status != SimStatus::NotStarted ==> forall|j: nat|
                    j < self.iteration - start.iteration && !(self.status == SimStatus::Converged && j
                        == self.iteration - start.iteration - 1) ==> #[trigger] step_total(graph@, start.positions@, *config, j)
                        >= config.convergence_threshold,
            decreases steps_left(*self, *config),
        {
            let ghost before = *self;
            self.step(graph, config);
            proof {
                if self.iteration == before.iteration + 1 {
                    let k = (self.iteration - start.iteration) as nat;
                    assert(steps(graph@, start.positions@, *config, k) == next_positions(graph@, steps(graph@, start.positions@, *config, (k - 1) as nat), *config));
                    assert(step_total(graph@, start.positions@, *config, (k - 1) as nat) == total_force(net_forces(graph@, before.positions@, *config)));
                }
            }
        }
    }
}

} // verus!
