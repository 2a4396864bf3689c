//! The pairwise and per-link forces of the layout, in integer units, and the
//! passes that accumulate them.
use vstd::prelude::*;
use crate::geom::{Vec2, FORCE_LIMIT, in_box, force_bounded, sat, div_trunc, isqrt, vector_length};
use crate::grid::{Grid, grid_holds, near, lemma_block_is_near};
use crate::graph::{LinkNode, graph_wf};

verus! {

/// Largest accepted repulsion constant.
pub const REPULSION_LIMIT: i64 = 1099511627776;

/// Largest accepted attraction constant (in thousandths).
pub const ATTRACTION_LIMIT: i64 = 1048576;

/// Largest accepted node radius.
pub const RADIUS_LIMIT: i64 = 1048576;

/// The distance from `q` to `p`, rounded down.
pub open spec fn dist(p: Vec2, q: Vec2) -> int {
    let dx = p.x - q.x;
    let dy = p.y - q.y;
    isqrt((dx * dx + dy * dy) as nat) as int
}

/// The distance, floored at one unit so that it can divide.
pub open spec fn floored_dist(p: Vec2, q: Vec2) -> int {
    if dist(p, q) < 1 {
        1
    } else {
        dist(p, q)
    }
}

/// The push of `q` on `p`: magnitude `c / d^2`, along the unit vector from `q` to `p`.
pub open spec fn repulsion_term(c: int, p: Vec2, q: Vec2) -> (int, int) {
    let d = floored_dist(p, q);
    (sat(div_trunc((p.x - q.x) * c, d * d * d)), sat(div_trunc((p.y - q.y) * c, d * d * d)))
}

/// The repulsion on node `i` from the nodes of `nb` other than `i`, summed in order
/// with saturation.
pub open spec fn repulsion_acc(pos: Seq<Vec2>, c: int, i: int, nb: Seq<usize>) -> (int, int)
    decreases nb.len(),
{
    if nb.len() == 0 {
        (0, 0)
    } else {
        let s = repulsion_acc(pos, c, i, nb.drop_last());
        let j = nb.last() as int;
        if j == i || j >= pos.len() {
            s
        } else {
            let t = repulsion_term(c, pos[i], pos[j]);
            (sat(s.0 + t.0), sat(s.1 + t.1))
        }
    }
}

/// How far apart two circles of radius `r` at `p` and `q` are pushed, seen from `p`
/// (node `i`; `q` is node `j`): half the overlap, away from `q`. Coincident nodes are
/// parted along the x axis, the lower index to the left.
pub open spec fn collision_term(r: int, p: Vec2, q: Vec2, i: int, j: int) -> (int, int) {
    let d = dist(p, q);
    let overlap = 2 * r - d;
    if overlap <= 0 {
        (0, 0)
    } else if d == 0 {
        if i < j {
            (-(overlap / 2), 0)
        } else {
            (overlap / 2, 0)
        }
    } else {
        (div_trunc((p.x - q.x) * overlap, 2 * d), div_trunc((p.y - q.y) * overlap, 2 * d))
    }
}

/// The overlap corrections of node `i` against the nodes of `nb`, summed in order
/// with saturation.
pub open spec fn collision_acc(pos: Seq<Vec2>, r: int, i: int, nb: Seq<usize>) -> (int, int)
    decreases nb.len(),
{
    if nb.len() == 0 {
        (0, 0)
    } else {
        let s = collision_acc(pos, r, i, nb.drop_last());
        let j = nb.last() as int;
        if j == i || j >= pos.len() {
            s
        } else {
            let t = collision_term(r, pos[i], pos[j], i, j);
            (sat(s.0 + t.0), sat(s.1 + t.1))
        }
    }
}

/// The vectors as pairs of integers.
pub open spec fn as_pairs(v: Seq<Vec2>) -> Seq<(int, int)> {
    v.map_values(|f: Vec2| (f.x as int, f.y as int))
}

/// The pull of a link from `p` to `q` on `p`'s side: `ca / 1000` times the difference,
/// a spring whose force grows with the distance.
pub open spec fn attraction_term(ca: int, p: Vec2, q: Vec2) -> (int, int) {
    (div_trunc((p.x - q.x) * ca, 1000), div_trunc((p.y - q.y) * ca, 1000))
}

/// `f` after the link `a -> b` pulls its two ends together by `t`.
pub open spec fn apply_link(f: Seq<(int, int)>, a: int, b: int, t: (int, int)) -> Seq<(int, int)> {
    let f1 = f.update(a, (sat(f[a].0 - t.0), sat(f[a].1 - t.1)));
    f1.update(b, (sat(f1[b].0 + t.0), sat(f1[b].1 + t.1)))
}

/// `f` after the first `k` links of node `a`.
pub open spec fn node_links_applied(
    g: Seq<LinkNode>,
    pos: Seq<Vec2>,
    ca: int,
    f: Seq<(int, int)>,
    a: int,
    k: int,
) -> Seq<(int, int)>
    decreases k,
{
    if k <= 0 {
        f
    } else {
        let f1 = node_links_applied(g, pos, ca, f, a, k - 1);
        let b = g[a].links@[k - 1] as int;
        apply_link(f1, a, b, attraction_term(ca, pos[a], pos[b]))
    }
}

/// `f` after every link of the nodes below `a`, node by node, each in its order.
pub open spec fn links_applied(
    g: Seq<LinkNode>,
    pos: Seq<Vec2>,
    ca: int,
    f: Seq<(int, int)>,
    a: int,
) -> Seq<(int, int)>
    decreases a,
{
    if a <= 0 {
        f
    } else {
        node_links_applied(
            g,
            pos,
            ca,
            links_applied(g, pos, ca, f, a - 1),
            a - 1,
            g[a - 1].links@.len() as int,
        )
    }
}

pub open spec fn all_in_box(pos: Seq<Vec2>) -> bool {
    forall|j: int| 0 <= j < pos.len() ==> in_box(#[trigger] pos[j])
}

/// Division rounding toward zero.
fn div_toward_zero(a: i128, b: i128) -> (r: i128)
    requires
        b > 0,
        a > i128::MIN,
    ensures
        r == div_trunc(a as int, b as int),
{
    if a >= 0 {
        a / b
    } else {
        -((-a) / b)
    }
}

/// `v` saturated at the force bound.
fn saturate(v: i128) -> (r: i64)
    ensures
        r == sat(v as int),
{
    if v < -(FORCE_LIMIT as i128) {
        -FORCE_LIMIT
    } else if v > FORCE_LIMIT as i128 {
        FORCE_LIMIT
    } else {
        v as i64
    }
}

proof fn lemma_div_trunc_bound(a: int, b: int, m: int)
    requires
        b > 0,
        -m <= a <= m,
    ensures
        -m <= div_trunc(a, b) <= m,
{
    if a >= 0 {
        assert(a / b <= a) by (nonlinear_arith)
            requires
                a >= 0,
                b > 0,
        ;
    } else {
        assert((-a) / b <= -a) by (nonlinear_arith)
            requires
                -a >= 0,
                b > 0,
        ;
    }
}

/// The push of `q` on `p`.
pub fn repulsion_between(c: i64, p: Vec2, q: Vec2) -> (r: Vec2)
    requires
        in_box(p),
        in_box(q),
        0 <= c <= REPULSION_LIMIT,
    ensures
        (r.x as int, r.y as int) == repulsion_term(c as int, p, q),
{
    let dx = p.x - q.x;
    let dy = p.y - q.y;
    let len = vector_length(dx, dy);
    let d: i128 = if len < 1 {
        1
    } else {
        len as i128
    };
    assert(d * d * d <= 4294967296 * 4294967296 * 4294967296) by (nonlinear_arith)
        requires
            1 <= d <= 4294967296,
    ;
    assert(d * d * d >= 1) by (nonlinear_arith)
        requires
            1 <= d,
    ;
    assert(d * d <= 4294967296 * 4294967296) by (nonlinear_arith)
        requires
            1 <= d <= 4294967296,
    ;
    let den = d * d * d;
    assert(-2147483648 * 1099511627776 <= (dx as int) * (c as int) <= 2147483648 * 1099511627776)
        by (nonlinear_arith)
        requires
            -2147483648 <= dx <= 2147483648,
            0 <= c <= 1099511627776,
    ;
    assert(-2147483648 * 1099511627776 <= (dy as int) * (c as int) <= 2147483648 * 1099511627776)
        by (nonlinear_arith)
        requires
            -2147483648 <= dy <= 2147483648,
            0 <= c <= 1099511627776,
    ;
    let tx = div_toward_zero((dx as i128) * (c as i128), den);
    let ty = div_toward_zero((dy as i128) * (c as i128), den);
    Vec2 { x: saturate(tx), y: saturate(ty) }
}

/// The overlap correction of node `i` at `p` against node `j` at `q`.
pub fn collision_between(r: i64, p: Vec2, q: Vec2, i: usize, j: usize) -> (out: Vec2)
    requires
        in_box(p),
        in_box(q),
        0 <= r <= RADIUS_LIMIT,
    ensures
        (out.x as int, out.y as int) == collision_term(r as int, p, q, i as int, j as int),
        -2 * RADIUS_LIMIT <= out.x <= 2 * RADIUS_LIMIT,
        -2 * RADIUS_LIMIT <= out.y <= 2 * RADIUS_LIMIT,
{
    let dx = p.x - q.x;
    let dy = p.y - q.y;
    let d = vector_length(dx, dy) as i64;
    let overlap = 2 * r - d;
    if overlap <= 0 {
        Vec2 { x: 0, y: 0 }
    } else if d == 0 {
        if i < j {
            Vec2 { x: -(overlap / 2), y: 0 }
        } else {
            Vec2 { x: overlap / 2, y: 0 }
        }
    } else {
        proof {
            crate::geom::lemma_component_le_length(dx as int, dy as int);
            crate::geom::lemma_component_le_length(dy as int, dx as int);
            assert(dy * dy + dx * dx == dx * dx + dy * dy);
            assert(-(d * overlap) <= dx * overlap <= d * overlap) by (nonlinear_arith)
                requires
                    -d <= dx <= d,
                    overlap > 0,
            ;
            assert(-(d * overlap) <= dy * overlap <= d * overlap) by (nonlinear_arith)
                requires
                    -d <= dy <= d,
                    overlap > 0,
            ;
            assert(d * overlap <= 4294967296 * 2097152) by (nonlinear_arith)
                requires
                    0 < d <= 4294967296,
                    0 < overlap <= 2097152,
            ;
            assert(d * overlap <= (2 * d) * overlap) by (nonlinear_arith)
                requires
                    d > 0,
                    overlap > 0,
            ;
            assert(div_trunc(dx * overlap, 2 * d) <= overlap && div_trunc(dx * overlap, 2 * d) >= -overlap) by {
                lemma_div_trunc_exact_bound(dx * overlap, 2 * d, overlap as int);
            }
            assert(div_trunc(dy * overlap, 2 * d) <= overlap && div_trunc(dy * overlap, 2 * d) >= -overlap) by {
                lemma_div_trunc_exact_bound(dy * overlap, 2 * d, overlap as int);
            }
        }
        let tx = div_toward_zero((dx as i128) * (overlap as i128), 2 * (d as i128));
        let ty = div_toward_zero((dy as i128) * (overlap as i128), 2 * (d as i128));
        Vec2 { x: tx as i64, y: ty as i64 }
    }
}

pub(crate) proof fn lemma_div_trunc_exact_bound(a: int, b: int, m: int)
    requires
        b > 0,
        m >= 0,
        -(b * m) <= a <= b * m,
    ensures
        -m <= div_trunc(a, b) <= m,
{
    if a >= 0 {
        assert(a / b <= m) by (nonlinear_arith)
            requires
                0 <= a <= b * m,
                b > 0,
        ;
    } else {
        assert((-a) / b <= m) by (nonlinear_arith)
            requires
                0 <= -a <= b * m,
                b > 0,
        ;
    }
}

/// The repulsion on every node from the nodes that the grid offers as its neighbours.
pub fn repulsion_forces(positions: &Vec<Vec2>, grid: &Grid, c: i64) -> (r: Vec<Vec2>)
    requires
        all_in_box(positions@),
        grid.cell_size >= 1,
        grid_holds(*grid, positions@, positions@.len() as int),
        0 <= c <= REPULSION_LIMIT,
    ensures
        r@.len() == positions@.len(),
        forall|i: int|
            0 <= i < r@.len() ==> ((#[trigger] r@[i]).x as int, r@[i].y as int) == repulsion_acc(
                positions@,
                c as int,
                i,
                near(positions@, grid.cell_size as int, positions@[i]),
            ),
        forall|i: int| 0 <= i < r@.len() ==> force_bounded(#[trigger] r@[i]),
{
    let n = positions.len();
    let mut out: Vec<Vec2> = Vec::new();
    let mut i: usize = 0;
    while i < n
        invariant
            n == positions@.len(),
            all_in_box(positions@),
            grid.cell_size >= 1,
            grid_holds(*grid, positions@, positions@.len() as int),
            0 <= c <= REPULSION_LIMIT,
            forall|m: int| 0 <= m < i ==> force_bounded(#[trigger] out@[m]),
            i <= n,
            out@.len() == i,
            forall|m: int|
                0 <= m < i ==> ((#[trigger] out@[m]).x as int, out@[m].y as int) == repulsion_acc(
                    positions@,
                    c as int,
                    m,
                    near(positions@, grid.cell_size as int, positions@[m]),
                ),
        decreases n - i,
    {
        let p = positions[i];
        assert(in_box(positions@[i as int]));
        let nb = grid.get_neighboring_cells(p);
        proof {
            lemma_block_is_near(*grid, positions@, crate::grid::cell_coord(p.x as int, grid.cell_size as int), crate::grid::cell_coord(p.y as int, grid.cell_size as int));
        }
        let mut fx: i64 = 0;
        let mut fy: i64 = 0;
        let mut k: usize = 0;
        while k < nb.len()
            invariant
                n == positions@.len(),
                all_in_box(positions@),
                0 <= c <= REPULSION_LIMIT,
                i < n,
                p == positions@[i as int],
                k <= nb@.len(),
                (fx as int, fy as int) == repulsion_acc(positions@, c as int, i as int, nb@.subrange(0, k as int)),
                -FORCE_LIMIT <= fx <= FORCE_LIMIT,
                -FORCE_LIMIT <= fy <= FORCE_LIMIT,
            decreases nb@.len() - k,
        {
            let j = nb[k];
            assert(nb@.subrange(0, k + 1).drop_last() =~= nb@.subrange(0, k as int));
            if j != i && j < n {
                assert(in_box(positions@[j as int]));
                let t = repulsion_between(c, p, positions[j]);
                fx = saturate(fx as i128 + t.x as i128);
                fy = saturate(fy as i128 + t.y as i128);
            }
            k += 1;
        }
        assert(nb@.subrange(0, nb@.len() as int) =~= nb@);
        out.push(Vec2 { x: fx, y: fy });
        i += 1;
    }
    out
}

/// The overlap correction of every node against the nodes that the grid offers as
/// its neighbours.
pub fn collision_corrections(positions: &Vec<Vec2>, grid: &Grid, radius: i64) -> (r: Vec<Vec2>)
    requires
        all_in_box(positions@),
        grid.cell_size >= 1,
        grid_holds(*grid, positions@, positions@.len() as int),
        0 <= radius <= RADIUS_LIMIT,
    ensures
        r@.len() == positions@.len(),
        forall|i: int|
            0 <= i < r@.len() ==> ((#[trigger] r@[i]).x as int, r@[i].y as int) == collision_acc(
                positions@,
                radius as int,
                i,
                near(positions@, grid.cell_size as int, positions@[i]),
            ),
        forall|i: int| 0 <= i < r@.len() ==> force_bounded(#[trigger] r@[i]),
{
    let n = positions.len();
    let mut out: Vec<Vec2> = Vec::new();
    let mut i: usize = 0;
    while i < n
        invariant
            n == positions@.len(),
            all_in_box(positions@),
            grid.cell_size >= 1,
            grid_holds(*grid, positions@, positions@.len() as int),
            0 <= radius <= RADIUS_LIMIT,
            forall|m: int| 0 <= m < i ==> force_bounded(#[trigger] out@[m]),
            i <= n,
            out@.len() == i,
            forall|m: int|
                0 <= m < i ==> ((#[trigger] out@[m]).x as int, out@[m].y as int) == collision_acc(
                    positions@,
                    radius as int,
                    m,
                    near(positions@, grid.cell_size as int, positions@[m]),
                ),
        decreases n - i,
    {
        let p = positions[i];
        assert(in_box(positions@[i as int]));
        let nb = grid.get_neighboring_cells(p);
        proof {
            lemma_block_is_near(*grid, positions@, crate::grid::cell_coord(p.x as int, grid.cell_size as int), crate::grid::cell_coord(p.y as int, grid.cell_size as int));
        }
        let mut cx: i64 = 0;
        let mut cy: i64 = 0;
        let mut k: usize = 0;
        while k < nb.len()
            invariant
                n == positions@.len(),
                all_in_box(positions@),
                0 <= radius <= RADIUS_LIMIT,
                i < n,
                p == positions@[i as int],
                k <= nb@.len(),
                (cx as int, cy as int) == collision_acc(positions@, radius as int, i as int, nb@.subrange(0, k as int)),
                -FORCE_LIMIT <= cx <= FORCE_LIMIT,
                -FORCE_LIMIT <= cy <= FORCE_LIMIT,
            decreases nb@.len() - k,
        {
            let j = nb[k];
            assert(nb@.subrange(0, k + 1).drop_last() =~= nb@.subrange(0, k as int));
            if j != i && j < n {
                assert(in_box(positions@[j as int]));
                let t = collision_between(radius, p, positions[j], i, j);
                cx = saturate(cx as i128 + t.x as i128);
                cy = saturate(cy as i128 + t.y as i128);
            }
            k += 1;
        }
        assert(nb@.subrange(0, nb@.len() as int) =~= nb@);
        out.push(Vec2 { x: cx, y: cy });
        i += 1;
    }
    out
}

/// The pull of a link from `p` to `q`, on `p`'s side.
pub fn attraction_between(ca: i64, p: Vec2, q: Vec2) -> (r: Vec2)
    requires
        in_box(p),
        in_box(q),
        0 <= ca <= ATTRACTION_LIMIT,
    ensures
        (r.x as int, r.y as int) == attraction_term(ca as int, p, q),
{
    let dx = p.x - q.x;
    let dy = p.y - q.y;
    assert(-2147483648 * 1048576 <= (dx as int) * (ca as int) <= 2147483648 * 1048576)
        by (nonlinear_arith)
        requires
            -2147483648 <= dx <= 2147483648,
            0 <= ca <= 1048576,
    ;
    assert(-2147483648 * 1048576 <= (dy as int) * (ca as int) <= 2147483648 * 1048576)
        by (nonlinear_arith)
        requires
            -2147483648 <= dy <= 2147483648,
            0 <= ca <= 1048576,
    ;
    let tx = div_toward_zero((dx as i128) * (ca as i128), 1000);
    let ty = div_toward_zero((dy as i128) * (ca as i128), 1000);
    proof {
        lemma_div_trunc_bound((dx as int) * (ca as int), 1000, 2147483648int * 1048576);
        lemma_div_trunc_bound((dy as int) * (ca as int), 1000, 2147483648int * 1048576);
    }
    Vec2 { x: tx as i64, y: ty as i64 }
}

/// Adds to `forces` the pull of every link, node by node and link by link: the
/// source is pulled toward the target and the target toward the source.
pub fn add_attraction(graph: &Vec<LinkNode>, positions: &Vec<Vec2>, ca: i64, forces: &mut Vec<Vec2>)
    requires
        graph_wf(graph@),
        positions@.len() == graph@.len(),
        all_in_box(positions@),
        0 <= ca <= ATTRACTION_LIMIT,
        old(forces)@.len() == graph@.len(),
        forall|i: int| 0 <= i < old(forces)@.len() ==> force_bounded(#[trigger] old(forces)@[i]),
    ensures
        final(forces)@.len() == graph@.len(),
        forall|i: int| 0 <= i < final(forces)@.len() ==> force_bounded(#[trigger] final(forces)@[i]),
        as_pairs(final(forces)@) == links_applied(
            graph@,
            positions@,
            ca as int,
            as_pairs(old(forces)@),
            graph@.len() as int,
        ),
{
    let n = graph.len();
    let ghost f0 = as_pairs(forces@);
    let mut a: usize = 0;
    while a < n
        invariant
            n == graph@.len(),
            graph_wf(graph@),
            positions@.len() == n,
            all_in_box(positions@),
            0 <= ca <= ATTRACTION_LIMIT,
            forces@.len() == n,
            forall|i: int| 0 <= i < n ==> force_bounded(#[trigger] forces@[i]),
            a <= n,
            as_pairs(forces@) == links_applied(graph@, positions@, ca as int, f0, a as int),
        decreases n - a,
    {
        let links = &graph[a].links;
        let ghost base = as_pairs(forces@);
        let mut k: usize = 0;
        while k < links.len()
            invariant
                n == graph@.len(),
                graph_wf(graph@),
                positions@.len() == n,
                all_in_box(positions@),
                0 <= ca <= ATTRACTION_LIMIT,
                forces@.len() == n,
                forall|i: int| 0 <= i < n ==> force_bounded(#[trigger] forces@[i]),
                a < n,
                links@ == graph@[a as int].links@,
                k <= links@.len(),
                base == links_applied(graph@, positions@, ca as int, f0, a as int),
                as_pairs(forces@) == node_links_applied(graph@, positions@, ca as int, base, a as int, k as int),
            decreases links@.len() - k,
        {
            let b = links[k];
            assert(graph@[a as int].links@[k as int] < n);
            assert(in_box(positions@[a as int]));
            assert(in_box(positions@[b as int]));
            let t = attraction_between(ca, positions[a], positions[b]);
            let ghost before = as_pairs(forces@);
            let fa = forces[a];
            forces.set(a, Vec2 { x: saturate(fa.x as i128 - t.x as i128), y: saturate(fa.y as i128 - t.y as i128) });
            let ghost mid = as_pairs(forces@);
            let fb = forces[b];
            forces.set(b, Vec2 { x: saturate(fb.x as i128 + t.x as i128), y: saturate(fb.y as i128 + t.y as i128) });
            proof {
                let tt = attraction_term(ca as int, positions@[a as int], positions@[b as int]);
                let f1 = before.update(a as int, (sat(before[a as int].0 - tt.0), sat(before[a as int].1 - tt.1)));
                assert(mid =~= f1);
                assert(as_pairs(forces@) =~= apply_link(before, a as int, b as int, tt));
            }
            k += 1;
        }
        a += 1;
    }
}

} // verus!
