//! A uniform bucket index over positions, queried by 3x3 blocks of cells.
use vstd::prelude::*;
use std::collections::HashMap;
use crate::geom::{Vec2, COORD_LIMIT, in_box};

verus! {

broadcast use vstd::std_specs::hash::group_hash_axioms;

/// Cell coordinates lie in `[-KEY_OFFSET, KEY_OFFSET)`; a cell's key is
/// `(cx + KEY_OFFSET) * KEY_STRIDE + (cy + KEY_OFFSET)`.
pub const KEY_STRIDE: u64 = 4294967296;
pub const KEY_OFFSET: i64 = 2147483648;

/// The cell coordinate of `v` for cells of side `cs`: `floor(v / cs)`.
pub open spec fn cell_coord(v: int, cs: int) -> int {
    v / cs
}

pub open spec fn cell_in_range(cx: int, cy: int) -> bool {
    -KEY_OFFSET <= cx < KEY_OFFSET && -KEY_OFFSET <= cy < KEY_OFFSET
}

pub open spec fn cell_key(cx: int, cy: int) -> u64 {
    ((cx + KEY_OFFSET) * KEY_STRIDE + (cy + KEY_OFFSET)) as u64
}

/// The indices below `k` whose position falls in cell `(cx, cy)`, in increasing order.
pub open spec fn cell_members(pos: Seq<Vec2>, cs: int, cx: int, cy: int, k: int) -> Seq<usize>
    decreases k,
{
    if k <= 0 {
        Seq::empty()
    } else {
        let s = cell_members(pos, cs, cx, cy, k - 1);
        if cell_coord(pos[k - 1].x as int, cs) == cx && cell_coord(pos[k - 1].y as int, cs) == cy {
            s.push((k - 1) as usize)
        } else {
            s
        }
    }
}

/// What a map of buckets holds for cell `(cx, cy)`.
pub open spec fn bucket(m: Map<u64, Vec<usize>>, cx: int, cy: int) -> Seq<usize> {
    if cell_in_range(cx, cy) && m.contains_key(cell_key(cx, cy)) {
        m[cell_key(cx, cy)]@
    } else {
        Seq::empty()
    }
}

/// The buckets of the 3x3 block centred on `(cx, cy)`, column by column.
pub open spec fn block(m: Map<u64, Vec<usize>>, cx: int, cy: int) -> Seq<usize> {
    bucket(m, cx - 1, cy - 1) + bucket(m, cx - 1, cy) + bucket(m, cx - 1, cy + 1) + bucket(
        m,
        cx,
        cy - 1,
    ) + bucket(m, cx, cy) + bucket(m, cx, cy + 1) + bucket(m, cx + 1, cy - 1) + bucket(
        m,
        cx + 1,
        cy,
    ) + bucket(m, cx + 1, cy + 1)
}

/// The members, among the first `n` positions, of cell `(cx, cy)` (none outside the key range).
pub open spec fn members_in(pos: Seq<Vec2>, cs: int, cx: int, cy: int, n: int) -> Seq<usize> {
    if cell_in_range(cx, cy) {
        cell_members(pos, cs, cx, cy, n)
    } else {
        Seq::empty()
    }
}

/// The indices the grid over `pos` offers as neighbours of a point in cell `(cx, cy)`.
pub open spec fn near_cells(pos: Seq<Vec2>, cs: int, cx: int, cy: int) -> Seq<usize> {
    let n = pos.len() as int;
    members_in(pos, cs, cx - 1, cy - 1, n) + members_in(pos, cs, cx - 1, cy, n) + members_in(
        pos,
        cs,
        cx - 1,
        cy + 1,
        n,
    ) + members_in(pos, cs, cx, cy - 1, n) + members_in(pos, cs, cx, cy, n) + members_in(
        pos,
        cs,
        cx,
        cy + 1,
        n,
    ) + members_in(pos, cs, cx + 1, cy - 1, n) + members_in(pos, cs, cx + 1, cy, n) + members_in(
        pos,
        cs,
        cx + 1,
        cy + 1,
        n,
    )
}

/// The neighbours the grid over `pos` offers to the point `p`.
pub open spec fn near(pos: Seq<Vec2>, cs: int, p: Vec2) -> Seq<usize> {
    near_cells(pos, cs, cell_coord(p.x as int, cs), cell_coord(p.y as int, cs))
}

/// Node indices bucketed by the cell their position falls in.
pub struct Grid {
    pub cell_size: i64,
    pub cells: HashMap<u64, Vec<usize>>,
}

/// The grid holds, for every cell, the first `k` indices of `pos` that fall in it.
pub open spec fn grid_holds(grid: Grid, pos: Seq<Vec2>, k: int) -> bool {
    forall|cx: int, cy: int|
        cell_in_range(cx, cy) ==> #[trigger] bucket(grid.cells@, cx, cy) == cell_members(
            pos,
            grid.cell_size as int,
            cx,
            cy,
            k,
        )
}

proof fn lemma_cell_in_range(v: int, cs: int)
    requires
        -COORD_LIMIT <= v <= COORD_LIMIT,
        cs >= 1,
    ensures
        -COORD_LIMIT <= cell_coord(v, cs) <= COORD_LIMIT,
{
    vstd::arithmetic::div_mod::lemma_fundamental_div_mod(v, cs);
    let q = v / cs;
    let r = v % cs;
    assert(0 <= r < cs) by {
        vstd::arithmetic::div_mod::lemma_mod_bound(v, cs);
    }
    assert(-COORD_LIMIT <= q <= COORD_LIMIT) by (nonlinear_arith)
        requires
            v == cs * q + r,
            0 <= r < cs,
            cs >= 1,
            -COORD_LIMIT <= v <= COORD_LIMIT,
    ;
}

/// `floor(v / cs)`, for a positive `cs`.
fn floor_div(v: i64, cs: i64) -> (r: i64)
    requires
        cs >= 1,
        -COORD_LIMIT <= v <= COORD_LIMIT,
    ensures
        r == (v as int) / (cs as int),
{
    if v >= 0 {
        v / cs
    } else {
        let w = -v - 1;
        let q = w / cs;
        proof {
            let rr = (w as int) % (cs as int);
            vstd::arithmetic::div_mod::lemma_fundamental_div_mod(w as int, cs as int);
            vstd::arithmetic::div_mod::lemma_mod_bound(w as int, cs as int);
            assert(v == (-q - 1) * cs + (cs - rr - 1)) by (nonlinear_arith)
                requires
                    w == cs * q + rr,
                    v == -w - 1,
            ;
            vstd::arithmetic::div_mod::lemma_fundamental_div_mod_converse_div(v as int, cs as int, -q - 1, cs - rr - 1);
        }
        -q - 1
    }
}

proof fn lemma_key_injective(ax: int, ay: int, bx: int, by: int)
    requires
        cell_in_range(ax, ay),
        cell_in_range(bx, by),
        cell_key(ax, ay) == cell_key(bx, by),
    ensures
        ax == bx && ay == by,
{
    let (px, py, qx, qy) = (ax + KEY_OFFSET, ay + KEY_OFFSET, bx + KEY_OFFSET, by + KEY_OFFSET);
    assert(px * KEY_STRIDE + py < KEY_STRIDE * KEY_STRIDE) by (nonlinear_arith)
        requires
            0 <= px < KEY_STRIDE,
            0 <= py < KEY_STRIDE,
    ;
    assert(qx * KEY_STRIDE + qy < KEY_STRIDE * KEY_STRIDE) by (nonlinear_arith)
        requires
            0 <= qx < KEY_STRIDE,
            0 <= qy < KEY_STRIDE,
    ;
    assert(px * KEY_STRIDE + py >= 0) by (nonlinear_arith)
        requires
            0 <= px,
            0 <= py,
    ;
    assert(qx * KEY_STRIDE + qy >= 0) by (nonlinear_arith)
        requires
            0 <= qx,
            0 <= qy,
    ;
    assert(px == qx && py == qy) by (nonlinear_arith)
        requires
            px * KEY_STRIDE + py == qx * KEY_STRIDE + qy,
            0 <= py < KEY_STRIDE,
            0 <= qy < KEY_STRIDE,
    ;
}

impl Grid {
    pub fn new(cell_size: i64) -> (r: Grid)
        requires
            cell_size >= 1,
        ensures
            r.cell_size == cell_size,
            r.cells@ == Map::<u64, Vec<usize>>::empty(),
    {
        Grid { cell_size, cells: HashMap::new() }
    }

    /// The cell that `pos` falls in.
    pub fn get_grid_pos(&self, pos: Vec2) -> (r: (i64, i64))
        requires
            self.cell_size >= 1,
            in_box(pos),
        ensures
            r.0 == cell_coord(pos.x as int, self.cell_size as int),
            r.1 == cell_coord(pos.y as int, self.cell_size as int),
            cell_in_range(r.0 as int, r.1 as int),
            -COORD_LIMIT <= r.0 <= COORD_LIMIT,
            -COORD_LIMIT <= r.1 <= COORD_LIMIT,
    {
        proof {
            lemma_cell_in_range(pos.x as int, self.cell_size as int);
            lemma_cell_in_range(pos.y as int, self.cell_size as int);
        }
        let x = floor_div(pos.x, self.cell_size);
        let y = floor_div(pos.y, self.cell_size);
        (x, y)
    }

    /// Adds `index` at the end of the bucket of the cell that `pos` falls in.
    pub fn insert_node(&mut self, pos: Vec2, index: usize)
        requires
            old(self).cell_size >= 1,
            in_box(pos),
        ensures
            final(self).cell_size == old(self).cell_size,
            forall|cx: int, cy: int|
                #[trigger] bucket(final(self).cells@, cx, cy) == if cx == cell_coord(
                    pos.x as int,
                    old(self).cell_size as int,
                ) && cy == cell_coord(pos.y as int, old(self).cell_size as int) {
                    bucket(old(self).cells@, cx, cy).push(index)
                } else {
                    bucket(old(self).cells@, cx, cy)
                },
    {
        let (gx, gy) = self.get_grid_pos(pos);
        let key = ((gx + KEY_OFFSET) as u64) * KEY_STRIDE + ((gy + KEY_OFFSET) as u64);
        assert(key == cell_key(gx as int, gy as int));
        let mut b = match self.cells.remove(&key) {
            Some(v) => v,
            None => Vec::new(),
        };
        b.push(index);
        self.cells.insert(key, b);
        proof {
            assert forall|cx: int, cy: int| cell_in_range(cx, cy) && (cx != gx || cy != gy) implies cell_key(cx, cy) != key by {
                if cell_key(cx, cy) == key {
                    lemma_key_injective(cx, cy, gx as int, gy as int);
                }
            }
        }
    }

    /// The indices in the 3x3 block of cells centred on the cell of `pos`.
    pub fn get_neighboring_cells(&self, pos: Vec2) -> (r: Vec<usize>)
        requires
            self.cell_size >= 1,
            in_box(pos),
        ensures
            r@ == block(
                self.cells@,
                cell_coord(pos.x as int, self.cell_size as int),
                cell_coord(pos.y as int, self.cell_size as int),
            ),
    {
        let (gx, gy) = self.get_grid_pos(pos);
        let ghost ix = gx as int;
        let ghost iy = gy as int;
        let mut out: Vec<usize> = Vec::new();
        let mut dx: i64 = -1;
        while dx <= 1
            invariant
                ix == gx && iy == gy,
                -1 <= dx <= 2,
                cell_in_range(gx as int, gy as int),
                -COORD_LIMIT <= gx <= COORD_LIMIT,
                -COORD_LIMIT <= gy <= COORD_LIMIT,
                out@ == if dx == -1 {
                    Seq::<usize>::empty()
                } else if dx == 0 {
                    bucket(self.cells@, ix - 1, iy - 1) + bucket(self.cells@, ix - 1, iy) + bucket(self.cells@, ix - 1, iy + 1)
                } else if dx == 1 {
                    bucket(self.cells@, ix - 1, iy - 1) + bucket(self.cells@, ix - 1, iy) + bucket(self.cells@, ix - 1, iy + 1)
                        + bucket(self.cells@, ix, iy - 1) + bucket(self.cells@, ix, iy) + bucket(self.cells@, ix, iy + 1)
                } else {
                    block(self.cells@, gx as int, gy as int)
                },
            decreases 2 - dx,
        {
            let mut dy: i64 = -1;
            let ghost start = out@;
            while dy <= 1
                invariant
                    ix == gx && iy == gy,
                    -1 <= dx <= 1,
                    -1 <= dy <= 2,
                    cell_in_range(gx as int, gy as int),
                    -COORD_LIMIT <= gx <= COORD_LIMIT,
                    -COORD_LIMIT <= gy <= COORD_LIMIT,
                    out@ == if dy == -1 {
                        start
                    } else if dy == 0 {
                        start + bucket(self.cells@, ix + dx, iy - 1)
                    } else if dy == 1 {
                        start + bucket(self.cells@, ix + dx, iy - 1) + bucket(self.cells@, ix + dx, iy)
                    } else {
                        start + bucket(self.cells@, ix + dx, iy - 1) + bucket(self.cells@, ix + dx, iy) + bucket(self.cells@, ix + dx, iy + 1)
                    },
                decreases 2 - dy,
            {
                let cx = gx + dx;
                let cy = gy + dy;
                if cx >= -KEY_OFFSET && cy >= -KEY_OFFSET && cx < KEY_OFFSET && cy < KEY_OFFSET {
                    let key = ((cx + KEY_OFFSET) as u64) * KEY_STRIDE + ((cy + KEY_OFFSET) as u64);
                    assert(key == cell_key(cx as int, cy as int));
                    match self.cells.get(&key) {
                        Some(v) => {
                            assert(bucket(self.cells@, cx as int, cy as int) == v@);
                            let mut t: usize = 0;
                            let ghost before = out@;
                            while t < v.len()
                                invariant
                                    t <= v@.len(),
                                    out@ == before + v@.subrange(0, t as int),
                                decreases v@.len() - t,
                            {
                                out.push(v[t]);
                                t += 1;
                                assert(v@.subrange(0, t as int) =~= v@.subrange(0, t - 1).push(v@[t - 1]));
                            }
                            assert(v@.subrange(0, v@.len() as int) =~= v@);
                        },
                        None => {
                            assert(bucket(self.cells@, cx as int, cy as int) == Seq::<usize>::empty());
                            assert(out@ =~= out@ + Seq::<usize>::empty());
                        },
                    }
                } else {
                    assert(!cell_in_range(cx as int, cy as int));
                    assert(out@ =~= out@ + Seq::<usize>::empty());
                }
                dy += 1;
            }
            proof {
                let b1 = bucket(self.cells@, ix + dx, iy - 1);
                let b2 = bucket(self.cells@, ix + dx, iy);
                let b3 = bucket(self.cells@, ix + dx, iy + 1);
                if dx == -1 {
                    assert(out@ =~= b1 + b2 + b3);
                } else if dx == 0 {
                    assert(out@ =~= start + b1 + b2 + b3);
                } else {
                    assert(out@ =~= start + b1 + b2 + b3);
                }
            }
            dx += 1;
        }
        out
    }

    pub fn clear(&mut self)
        ensures
            final(self).cell_size == old(self).cell_size,
            final(self).cells@ == Map::<u64, Vec<usize>>::empty(),
    {
        self.cells.clear();
    }
}

/// The grid of cells of side `cell_size` over all of `positions`.
pub fn build_grid(positions: &Vec<Vec2>, cell_size: i64) -> (grid: Grid)
    requires
        cell_size >= 1,
        forall|j: int| 0 <= j < positions@.len() ==> in_box(#[trigger] positions@[j]),
    ensures
        grid.cell_size == cell_size,
        grid_holds(grid, positions@, positions@.len() as int),
{
    let mut grid = Grid::new(cell_size);
    let mut j: usize = 0;
    while j < positions.len()
        invariant
            cell_size >= 1,
            forall|i: int| 0 <= i < positions@.len() ==> in_box(#[trigger] positions@[i]),
            j <= positions@.len(),
            grid.cell_size == cell_size,
            grid_holds(grid, positions@, j as int),
        decreases positions@.len() - j,
    {
        let ghost g0 = grid;
        grid.insert_node(positions[j], j);
        proof {
            assert forall|cx: int, cy: int| cell_in_range(cx, cy) implies #[trigger] bucket(
                grid.cells@,
                cx,
                cy,
            ) == cell_members(positions@, cell_size as int, cx, cy, j + 1) by {
                assert(bucket(g0.cells@, cx, cy) == cell_members(positions@, cell_size as int, cx, cy, j as int));
            }
        }
        j += 1;
    }
    grid
}

/// A grid that holds all of `pos` offers, around any cell, the members of the nine
/// cells of its block.
pub proof fn lemma_block_is_near(grid: Grid, pos: Seq<Vec2>, cx: int, cy: int)
    requires
        grid_holds(grid, pos, pos.len() as int),
    ensures
        block(grid.cells@, cx, cy) == near_cells(pos, grid.cell_size as int, cx, cy),
{
    let m = grid.cells@;
    let cs = grid.cell_size as int;
    let n = pos.len() as int;
    assert forall|ax: int, ay: int| true implies #[trigger] bucket(m, ax, ay) == members_in(pos, cs, ax, ay, n) by {
        if cell_in_range(ax, ay) {
            assert(bucket(m, ax, ay) == cell_members(pos, cs, ax, ay, n));
        }
    }
}

/// An index is a member of a cell exactly when its position falls in that cell.
pub proof fn lemma_cell_members(pos: Seq<Vec2>, cs: int, cx: int, cy: int, k: int, j: usize)
    requires
        0 <= k <= pos.len(),
        pos.len() <= usize::MAX,
    ensures
        cell_members(pos, cs, cx, cy, k).contains(j) <==> (j < k && cell_coord(pos[j as int].x as int, cs)
            == cx && cell_coord(pos[j as int].y as int, cs) == cy),
    decreases k,
{
    if k > 0 {
        lemma_cell_members(pos, cs, cx, cy, k - 1, j);
        let s = cell_members(pos, cs, cx, cy, k - 1);
        crate::cluster::lemma_push_contains(s, (k - 1) as usize, j);
        assert(((k - 1) as usize) as int == k - 1);
    }
}

pub(crate) proof fn lemma_concat_contains(a: Seq<usize>, b: Seq<usize>, x: usize)
    ensures
        (a + b).contains(x) <==> (a.contains(x) || b.contains(x)),
{
    if a.contains(x) {
        let i = choose|i: int| 0 <= i < a.len() && a[i] == x;
        assert((a + b)[i] == x);
    }
    if b.contains(x) {
        let i = choose|i: int| 0 <= i < b.len() && b[i] == x;
        assert((a + b)[a.len() + i] == x);
    }
    if (a + b).contains(x) {
        let i = choose|i: int| 0 <= i < (a + b).len() && (a + b)[i] == x;
        if i < a.len() {
            assert(a[i] == x);
        } else {
            assert(b[i - a.len()] == x);
        }
    }
}

/// The grid offers, around cell `(cx, cy)`, exactly the nodes whose cell lies within
/// one cell of it along both axes.
pub proof fn lemma_near_cells_members(pos: Seq<Vec2>, cs: int, cx: int, cy: int, j: usize)
    requires
        pos.len() <= usize::MAX,
        cs >= 1,
        forall|i: int| 0 <= i < pos.len() ==> in_box(#[trigger] pos[i]),
        -COORD_LIMIT <= cx <= COORD_LIMIT,
        -COORD_LIMIT <= cy <= COORD_LIMIT,
    ensures
        near_cells(pos, cs, cx, cy).contains(j) <==> (j < pos.len() && -1 <= cell_coord(pos[j as int].x as int, cs) - cx <= 1
            && -1 <= cell_coord(pos[j as int].y as int, cs) - cy <= 1),
{
    let n = pos.len() as int;
    assert forall|ax: int, ay: int| -1 <= ax - cx <= 1 && -1 <= ay - cy <= 1 implies
        (#[trigger] members_in(pos, cs, ax, ay, n)).contains(j) <==> (j < n && cell_coord(pos[j as int].x as int, cs) == ax
            && cell_coord(pos[j as int].y as int, cs) == ay) by {
        lemma_cell_members(pos, cs, ax, ay, n, j);
        if j < n {
            lemma_cell_in_range(pos[j as int].x as int, cs);
            lemma_cell_in_range(pos[j as int].y as int, cs);
        }
    }
    let b1 = members_in(pos, cs, cx - 1, cy - 1, n);
    let b2 = members_in(pos, cs, cx - 1, cy, n);
    let b3 = members_in(pos, cs, cx - 1, cy + 1, n);
    let b4 = members_in(pos, cs, cx, cy - 1, n);
    let b5 = members_in(pos, cs, cx, cy, n);
    let b6 = members_in(pos, cs, cx, cy + 1, n);
    let b7 = members_in(pos, cs, cx + 1, cy - 1, n);
    let b8 = members_in(pos, cs, cx + 1, cy, n);
    let b9 = members_in(pos, cs, cx + 1, cy + 1, n);
    lemma_concat_contains(b1, b2, j);
    lemma_concat_contains(b1 + b2, b3, j);
    lemma_concat_contains(b1 + b2 + b3, b4, j);
    lemma_concat_contains(b1 + b2 + b3 + b4, b5, j);
    lemma_concat_contains(b1 + b2 + b3 + b4 + b5, b6, j);
    lemma_concat_contains(b1 + b2 + b3 + b4 + b5 + b6, b7, j);
    lemma_concat_contains(b1 + b2 + b3 + b4 + b5 + b6 + b7, b8, j);
    lemma_concat_contains(b1 + b2 + b3 + b4 + b5 + b6 + b7 + b8, b9, j);
}

} // verus!
