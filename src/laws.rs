//! Properties of the simulation that relate several of its parts.
use vstd::prelude::*;
use crate::geom::{Vec2, COORD_LIMIT, in_box, sat, div_trunc, isqrt, clamp_to, lemma_isqrt_bounds};
use crate::graph::LinkNode;
use crate::forces::{
    repulsion_acc, repulsion_term, collision_acc, collision_term, links_applied, dist,
};
use crate::sim::{
    LayoutConfig, config_wf, next_positions, net_forces, corrections_all, repulsion_all, limited,
    damped, moved, force_len,
};

verus! {

/// `v` does not point toward the other side of a separation `d`.
pub open spec fn away(v: int, d: int) -> bool {
    (d > 0 ==> v >= 0) && (d < 0 ==> v <= 0)
}

proof fn lemma_div_trunc_away(a: int, b: int, d: int)
    requires
        b > 0,
        away(a, d),
    ensures
        away(div_trunc(a, b), d),
{
    if a >= 0 {
        assert(a / b >= 0) by (nonlinear_arith)
            requires
                a >= 0,
                b > 0,
        ;
    } else {
        assert((-a) / b >= 0) by (nonlinear_arith)
            requires
                -a > 0,
                b > 0,
        ;
    }
}

proof fn lemma_scale_away(x: int, c: int)
    requires
        c >= 0,
    ensures
        away(x * c, x),
{
    if x > 0 {
        assert(x * c >= 0) by (nonlinear_arith)
            requires
                x > 0,
                c >= 0,
        ;
    } else if x < 0 {
        assert(x * c <= 0) by (nonlinear_arith)
            requires
                x < 0,
                c >= 0,
        ;
    }
}

proof fn lemma_sat_away(s: int, t: int, d: int)
    requires
        away(s, d),
        away(t, d),
    ensures
        away(sat(s + t), d),
{
}

/// With two nodes, the repulsion on either points away from the other.
proof fn lemma_repulsion_away(pos: Seq<Vec2>, c: int, i: int, nb: Seq<usize>)
    requires
        pos.len() == 2,
        0 <= i < 2,
        c >= 0,
    ensures
        away(repulsion_acc(pos, c, i, nb).0, pos[i].x - pos[1 - i].x),
        away(repulsion_acc(pos, c, i, nb).1, pos[i].y - pos[1 - i].y),
    decreases nb.len(),
{
    if nb.len() > 0 {
        lemma_repulsion_away(pos, c, i, nb.drop_last());
        let j = nb.last() as int;
        if j != i && j < pos.len() {
            assert(j == 1 - i);
            let p = pos[i];
            let q = pos[j];
            let dx = p.x - q.x;
            let dy = p.y - q.y;
            let d = crate::forces::floored_dist(p, q);
            assert(d * d * d > 0) by (nonlinear_arith)
                requires
                    d >= 1,
            ;
            lemma_scale_away(dx, c);
            lemma_scale_away(dy, c);
            lemma_div_trunc_away(dx * c, d * d * d, dx);
            lemma_div_trunc_away(dy * c, d * d * d, dy);
            let t = repulsion_term(c, p, q);
            let s = repulsion_acc(pos, c, i, nb.drop_last());
            lemma_sat_away(s.0, t.0, dx);
            lemma_sat_away(s.1, t.1, dy);
        }
    }
}

/// With two nodes, the overlap correction of either points away from the other.
proof fn lemma_collision_away(pos: Seq<Vec2>, r: int, i: int, nb: Seq<usize>)
    requires
        pos.len() == 2,
        0 <= i < 2,
    ensures
        away(collision_acc(pos, r, i, nb).0, pos[i].x - pos[1 - i].x),
        away(collision_acc(pos, r, i, nb).1, pos[i].y - pos[1 - i].y),
    decreases nb.len(),
{
    if nb.len() > 0 {
        lemma_collision_away(pos, r, i, nb.drop_last());
        let j = nb.last() as int;
        if j != i && j < pos.len() {
            assert(j == 1 - i);
            let p = pos[i];
            let q = pos[j];
            let dx = p.x - q.x;
            let dy = p.y - q.y;
            let d = dist(p, q);
            let overlap = 2 * r - d;
            if overlap > 0 {
                if d == 0 {
                    assert(dx * dx >= 0 && dy * dy >= 0) by (nonlinear_arith);
                    let n = (dx * dx + dy * dy) as nat;
                    lemma_isqrt_bounds(n);
                    let r0 = isqrt(n);
                    assert(r0 == 0);
                    assert(n < 1) by (nonlinear_arith)
                        requires
                            n < (r0 + 1) * (r0 + 1),
                            r0 == 0,
                    ;
                    assert(dx * dx + dy * dy < 1);
                    assert(dx == 0 && dy == 0) by (nonlinear_arith)
                        requires
                            dx * dx + dy * dy < 1,
                    ;
                } else {
                    lemma_scale_away(dx, overlap);
                    lemma_scale_away(dy, overlap);
                    lemma_div_trunc_away(dx * overlap, 2 * d, dx);
                    lemma_div_trunc_away(dy * overlap, 2 * d, dy);
                }
            }
            let t = collision_term(r, p, q, i, j);
            let s = collision_acc(pos, r, i, nb.drop_last());
            lemma_sat_away(s.0, t.0, dx);
            lemma_sat_away(s.1, t.1, dy);
        }
    }
}

proof fn lemma_no_links_apply_nothing(g: Seq<LinkNode>, pos: Seq<Vec2>, ca: int, f: Seq<(int, int)>, a: int)
    requires
        0 <= a <= g.len(),
        forall|k: int| 0 <= k < g.len() ==> (#[trigger] g[k]).links@.len() == 0,
    ensures
        links_applied(g, pos, ca, f, a) == f,
    decreases a,
{
    if a > 0 {
        lemma_no_links_apply_nothing(g, pos, ca, f, a - 1);
        assert(g[a - 1].links@.len() == 0);
    }
}

proof fn lemma_damped_away(f: (int, int), m: int, dx: int, dy: int)
    requires
        m >= 0,
        away(f.0, dx),
        away(f.1, dy),
    ensures
        away(damped(f, m).0, dx),
        away(damped(f, m).1, dy),
{
    let len = force_len(f);
    if len > m {
        lemma_scale_away(f.0, m);
        lemma_scale_away(f.1, m);
        assert(away(f.0 * m, dx)) by {
            if dx > 0 {
                assert(f.0 * m >= 0) by (nonlinear_arith)
                    requires
                        f.0 >= 0,
                        m >= 0,
                ;
            } else if dx < 0 {
                assert(f.0 * m <= 0) by (nonlinear_arith)
                    requires
                        f.0 <= 0,
                        m >= 0,
                ;
            }
        }
        assert(away(f.1 * m, dy)) by {
            if dy > 0 {
                assert(f.1 * m >= 0) by (nonlinear_arith)
                    requires
                        f.1 >= 0,
                        m >= 0,
                ;
            } else if dy < 0 {
                assert(f.1 * m <= 0) by (nonlinear_arith)
                    requires
                        f.1 <= 0,
                        m >= 0,
                ;
            }
        }
        lemma_div_trunc_away(f.0 * m, len, dx);
        lemma_div_trunc_away(f.1 * m, len, dy);
    }
    let l = limited(f, m);
    lemma_div_trunc_away(l.0, 2, dx);
    lemma_div_trunc_away(l.1, 2, dy);
}

/// Two unlinked nodes, alone in the graph, never come closer in a step: the gap
/// between them along each axis does not shrink, so neither does their distance.
pub proof fn lemma_lone_pair_separates(g: Seq<LinkNode>, pos: Seq<Vec2>, c: LayoutConfig)
    requires
        g.len() == 2,
        pos.len() == 2,
        in_box(pos[0]),
        in_box(pos[1]),
        config_wf(c),
        g[0].links@.len() == 0,
        g[1].links@.len() == 0,
    ensures
        ({
            let next = next_positions(g, pos, c);
            let dx = pos[0].x - pos[1].x;
            let dy = pos[0].y - pos[1].y;
            let nx = next[0].x - next[1].x;
            let ny = next[0].y - next[1].y;
            &&& (dx > 0 ==> nx >= dx)
            &&& (dx < 0 ==> nx <= dx)
            &&& (dy > 0 ==> ny >= dy)
            &&& (dy < 0 ==> ny <= dy)
            &&& dist(next[0], next[1]) >= dist(pos[0], pos[1])
        }),
{
    let f = net_forces(g, pos, c);
    let k = corrections_all(pos, c);
    let m = c.max_step_displacement as int;
    assert forall|q: int| 0 <= q < g.len() implies (#[trigger] g[q]).links@.len() == 0 by {
        if q == 0 {
        } else {
            assert(q == 1);
        }
    }
    lemma_no_links_apply_nothing(g, pos, c.attraction_constant as int, repulsion_all(pos, c), 2);
    assert(f == repulsion_all(pos, c));
    let cs = crate::sim::cell_size_for(c, 2);
    let ccs = crate::sim::collision_cell_for(c);
    assert forall|i: int| 0 <= i < 2 implies away(#[trigger] f[i].0 + k[i].0, pos[i].x - pos[1 - i].x)
        && away(f[i].1 + k[i].1, pos[i].y - pos[1 - i].y) by {
        lemma_repulsion_away(pos, c.repulsion_constant as int, i, crate::grid::near(pos, cs, pos[i]));
        lemma_collision_away(pos, c.node_radius as int, i, crate::grid::near(pos, ccs, pos[i]));
    }
    let dx = pos[0].x - pos[1].x;
    let dy = pos[0].y - pos[1].y;
    let g0 = (f[0].0 + k[0].0, f[0].1 + k[0].1);
    let g1 = (f[1].0 + k[1].0, f[1].1 + k[1].1);
    assert(away(g0.0, dx) && away(g0.1, dy));
    assert(away(g1.0, -dx) && away(g1.1, -dy));
    lemma_damped_away(g0, m, dx, dy);
    lemma_damped_away(g1, m, -dx, -dy);
    let next = next_positions(g, pos, c);
    let nx = next[0].x - next[1].x;
    let ny = next[0].y - next[1].y;
    assert(next[0] == moved(pos[0], f[0], k[0], m));
    assert(next[1] == moved(pos[1], f[1], k[1], m));
    let s0 = damped(g0, m);
    let s1 = damped(g1, m);
    let lim = COORD_LIMIT as int;
    let x0 = clamp_to(pos[0].x + s0.0, -lim, lim);
    let x1 = clamp_to(pos[1].x + s1.0, -lim, lim);
    let y0 = clamp_to(pos[0].y + s0.1, -lim, lim);
    let y1 = clamp_to(pos[1].y + s1.1, -lim, lim);
    assert(next[0].x == x0 && next[1].x == x1 && next[0].y == y0 && next[1].y == y1);
    assert(dx > 0 ==> nx >= dx);
    assert(dx < 0 ==> nx <= dx);
    assert(dy > 0 ==> ny >= dy);
    assert(dy < 0 ==> ny <= dy);
    assert(nx * nx >= dx * dx) by (nonlinear_arith)
        requires
            dx > 0 ==> nx >= dx,
            dx < 0 ==> nx <= dx,
    ;
    assert(ny * ny >= dy * dy) by (nonlinear_arith)
        requires
            dy > 0 ==> ny >= dy,
            dy < 0 ==> ny <= dy,
    ;
    assert(dx * dx >= 0 && dy * dy >= 0) by (nonlinear_arith);
    lemma_isqrt_monotone((dx * dx + dy * dy) as nat, (nx * nx + ny * ny) as nat);
}

proof fn lemma_isqrt_monotone(a: nat, b: nat)
    requires
        a <= b,
    ensures
        isqrt(a) <= isqrt(b),
{
    lemma_isqrt_bounds(a);
    lemma_isqrt_bounds(b);
    let ra = isqrt(a);
    let rb = isqrt(b);
    if ra > rb {
        assert((rb + 1) * (rb + 1) <= ra * ra) by (nonlinear_arith)
            requires
                rb + 1 <= ra,
        ;
    }
}

} // verus!
