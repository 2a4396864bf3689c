//! The seeded starting layout: clusters on an outer ring around the canvas centre,
//! the largest cluster at the centre, and each cluster's members on a small ring.
use vstd::prelude::*;
use crate::geom::{Vec2, in_box};
use crate::sim::{LayoutConfig, config_wf};
use crate::forces::all_in_box;
use crate::cluster::{labels_dense, label_used};

verus! {

/// Directions are counted in `TURN` equal steps of a full turn.
pub const TURN: usize = 256;

/// Unit length of the sine table.
pub const UNIT: i64 = 1048576;

/// `UNIT * sin(k * 2pi / TURN)` rounded, for `k` in `0..=TURN / 4`.
pub open spec fn sine_table() -> Seq<i64> {
    seq![
        0i64, 25733, 51451, 77138, 102778, 128357, 153858, 179267, 204567, 229744, 254783, 279669,
        304386, 328919, 353255, 377377, 401273, 424926, 448324, 471452, 494295, 516841, 539076,
        560986, 582558, 603779, 624636, 645117, 665210, 684901, 704181, 723036, 741455, 759428,
        776944, 793991, 810560, 826641, 842224, 857300, 871859, 885893, 899394, 912352, 924761,
        936614, 947901, 958618, 968758, 978314, 987281, 995652, 1003425, 1010592, 1017151, 1023098,
        1028428, 1033138, 1037227, 1040690, 1043527, 1045735, 1047313, 1048260, 1048576,
    ]
}

/// The unit vector (scaled by `UNIT`) of direction `t`, `t` in `0..TURN`, by quarter turns.
pub open spec fn unit_dir(t: int) -> (int, int) {
    let s = sine_table();
    let q = t / 64;
    let r = t % 64;
    if q == 0 {
        (s[64 - r] as int, s[r] as int)
    } else if q == 1 {
        (-s[r], s[64 - r] as int)
    } else if q == 2 {
        (-s[64 - r], -s[r])
    } else {
        (s[r] as int, -s[64 - r])
    }
}

/// `a / b` rounded to the nearest integer, halves away from zero, for a positive `b`.
pub open spec fn div_round(a: int, b: int) -> int {
    if a >= 0 {
        (a + b / 2) / b
    } else {
        -((-a + b / 2) / b)
    }
}

/// A turn is divided into `TURN * FINE` angle steps for ring slots.
pub const FINE: i64 = 65536;

/// The angle step of slot `num` of `den` evenly spaced slots round a turn.
pub open spec fn slot_angle(num: int, den: int) -> int {
    num * (TURN * FINE) / den
}

/// The integer point nearest to the point at distance `radius` from `c` at angle step
/// `a`: the direction is taken between the two neighbouring table directions, in
/// proportion to `a`'s position between them.
pub open spec fn ring_point(c: (int, int), radius: int, a: int) -> (int, int) {
    let t = a / (FINE as int);
    let f = a % (FINE as int);
    let u0 = unit_dir(t);
    let u1 = unit_dir((t + 1) % (TURN as int));
    let wx = u0.0 * (FINE - f) + u1.0 * f;
    let wy = u0.1 * (FINE - f) + u1.1 * f;
    (
        c.0 + div_round(radius * wx, UNIT * FINE),
        c.1 + div_round(radius * wy, UNIT * FINE),
    )
}

/// The number of nodes below `k` labelled `c`.
pub open spec fn count_label(l: Seq<Option<usize>>, c: int, k: int) -> nat
    decreases k,
{
    if k <= 0 {
        0
    } else {
        count_label(l, c, k - 1) + if l[k - 1] is Some && l[k - 1]->0 == c {
            1nat
        } else {
            0nat
        }
    }
}

/// One more than the largest label among the nodes below `k` (0 if none is labelled).
pub open spec fn label_bound(l: Seq<Option<usize>>, k: int) -> int
    decreases k,
{
    if k <= 0 {
        0
    } else {
        let b = label_bound(l, k - 1);
        if l[k - 1] is Some && l[k - 1]->0 + 1 > b {
            l[k - 1]->0 + 1
        } else {
            b
        }
    }
}

/// The first of the labels below `m` with the most members.
pub open spec fn largest_below(l: Seq<Option<usize>>, m: int) -> int
    decreases m,
{
    if m <= 1 {
        0
    } else {
        let b = largest_below(l, m - 1);
        if count_label(l, m - 1, l.len() as int) > count_label(l, b, l.len() as int) {
            m - 1
        } else {
            b
        }
    }
}

/// The canvas centre.
pub open spec fn canvas_center(c: LayoutConfig) -> (int, int) {
    (c.canvas_width / 2, c.canvas_height / 2)
}

/// The centre of cluster `c`: the canvas centre for the largest cluster, else its slot
/// on the outer ring.
pub open spec fn cluster_center(l: Seq<Option<usize>>, cfg: LayoutConfig, c: int) -> (int, int) {
    let m = label_bound(l, l.len() as int);
    if c == largest_below(l, m) {
        canvas_center(cfg)
    } else {
        ring_point(canvas_center(cfg), cfg.cluster_ring_radius as int, slot_angle(c, m))
    }
}

/// The seeded position of node `i`: the canvas centre for an unlabelled node, else the
/// slot of its rank on the small ring round its cluster's centre.
pub open spec fn seed_point(l: Seq<Option<usize>>, cfg: LayoutConfig, i: int) -> (int, int) {
    match l[i] {
        None => canvas_center(cfg),
        Some(c) => {
            let size = count_label(l, c as int, l.len() as int);
            let rank = count_label(l, c as int, i);
            ring_point(
                cluster_center(l, cfg, c as int),
                cfg.cluster_inner_radius as int,
                slot_angle(rank as int, size as int),
            )
        },
    }
}

fn sine_values() -> (r: Vec<i64>)
    ensures
        r@ == sine_table(),
{
    let r: Vec<i64> = vec![
        0i64, 25733, 51451, 77138, 102778, 128357, 153858, 179267, 204567, 229744, 254783, 279669,
        304386, 328919, 353255, 377377, 401273, 424926, 448324, 471452, 494295, 516841, 539076,
        560986, 582558, 603779, 624636, 645117, 665210, 684901, 704181, 723036, 741455, 759428,
        776944, 793991, 810560, 826641, 842224, 857300, 871859, 885893, 899394, 912352, 924761,
        936614, 947901, 958618, 968758, 978314, 987281, 995652, 1003425, 1010592, 1017151, 1023098,
        1028428, 1033138, 1037227, 1040690, 1043527, 1045735, 1047313, 1048260, 1048576,
    ];
    assert(r@ =~= sine_table());
    r
}

proof fn lemma_table_bounds()
    ensures
        sine_table().len() == 65,
        forall|k: int| 0 <= k < 65 ==> 0 <= #[trigger] sine_table()[k] <= UNIT,
{
    let s = sine_table();
    assert(s.len() == 65);
    assert forall|k: int| 0 <= k < 65 implies 0 <= #[trigger] s[k] <= UNIT by {
        if k == 0 {
            assert(0 <= s[0] <= UNIT);
        } else if k == 1 {
            assert(0 <= s[1] <= UNIT);
        } else if k == 2 {
            assert(0 <= s[2] <= UNIT);
        } else if k == 3 {
            assert(0 <= s[3] <= UNIT);
        } else if k == 4 {
            assert(0 <= s[4] <= UNIT);
        } else if k == 5 {
            assert(0 <= s[5] <= UNIT);
        } else if k == 6 {
            assert(0 <= s[6] <= UNIT);
        } else if k == 7 {
            assert(0 <= s[7] <= UNIT);
        } else if k == 8 {
            assert(0 <= s[8] <= UNIT);
        } else if k == 9 {
            assert(0 <= s[9] <= UNIT);
        } else if k == 10 {
            assert(0 <= s[10] <= UNIT);
        } else if k == 11 {
            assert(0 <= s[11] <= UNIT);
        } else if k == 12 {
            assert(0 <= s[12] <= UNIT);
        } else if k == 13 {
            assert(0 <= s[13] <= UNIT);
        } else if k == 14 {
            assert(0 <= s[14] <= UNIT);
        } else if k == 15 {
            assert(0 <= s[15] <= UNIT);
        } else if k == 16 {
            assert(0 <= s[16] <= UNIT);
        } else if k == 17 {
            assert(0 <= s[17] <= UNIT);
        } else if k == 18 {
            assert(0 <= s[18] <= UNIT);
        } else if k == 19 {
            assert(0 <= s[19] <= UNIT);
        } else if k == 20 {
            assert(0 <= s[20] <= UNIT);
        } else if k == 21 {
            assert(0 <= s[21] <= UNIT);
        } else if k == 22 {
            assert(0 <= s[22] <= UNIT);
        } else if k == 23 {
            assert(0 <= s[23] <= UNIT);
        } else if k == 24 {
            assert(0 <= s[24] <= UNIT);
        } else if k == 25 {
            assert(0 <= s[25] <= UNIT);
        } else if k == 26 {
            assert(0 <= s[26] <= UNIT);
        } else if k == 27 {
            assert(0 <= s[27] <= UNIT);
        } else if k == 28 {
            assert(0 <= s[28] <= UNIT);
        } else if k == 29 {
            assert(0 <= s[29] <= UNIT);
        } else if k == 30 {
            assert(0 <= s[30] <= UNIT);
        } else if k == 31 {
            assert(0 <= s[31] <= UNIT);
        } else if k == 32 {
            assert(0 <= s[32] <= UNIT);
        } else if k == 33 {
            assert(0 <= s[33] <= UNIT);
        } else if k == 34 {
            assert(0 <= s[34] <= UNIT);
        } else if k == 35 {
            assert(0 <= s[35] <= UNIT);
        } else if k == 36 {
            assert(0 <= s[36] <= UNIT);
        } else if k == 37 {
            assert(0 <= s[37] <= UNIT);
        } else if k == 38 {
            assert(0 <= s[38] <= UNIT);
        } else if k == 39 {
            assert(0 <= s[39] <= UNIT);
        } else if k == 40 {
            assert(0 <= s[40] <= UNIT);
        } else if k == 41 {
            assert(0 <= s[41] <= UNIT);
        } else if k == 42 {
            assert(0 <= s[42] <= UNIT);
        } else if k == 43 {
            assert(0 <= s[43] <= UNIT);
        } else if k == 44 {
            assert(0 <= s[44] <= UNIT);
        } else if k == 45 {
            assert(0 <= s[45] <= UNIT);
        } else if k == 46 {
            assert(0 <= s[46] <= UNIT);
        } else if k == 47 {
            assert(0 <= s[47] <= UNIT);
        } else if k == 48 {
            assert(0 <= s[48] <= UNIT);
        } else if k == 49 {
            assert(0 <= s[49] <= UNIT);
        } else if k == 50 {
            assert(0 <= s[50] <= UNIT);
        } else if k == 51 {
            assert(0 <= s[51] <= UNIT);
        } else if k == 52 {
            assert(0 <= s[52] <= UNIT);
        } else if k == 53 {
            assert(0 <= s[53] <= UNIT);
        } else if k == 54 {
            assert(0 <= s[54] <= UNIT);
        } else if k == 55 {
            assert(0 <= s[55] <= UNIT);
        } else if k == 56 {
            assert(0 <= s[56] <= UNIT);
        } else if k == 57 {
            assert(0 <= s[57] <= UNIT);
        } else if k == 58 {
            assert(0 <= s[58] <= UNIT);
        } else if k == 59 {
            assert(0 <= s[59] <= UNIT);
        } else if k == 60 {
            assert(0 <= s[60] <= UNIT);
        } else if k == 61 {
            assert(0 <= s[61] <= UNIT);
        } else if k == 62 {
            assert(0 <= s[62] <= UNIT);
        } else if k == 63 {
            assert(0 <= s[63] <= UNIT);
        } else {
            assert(0 <= s[64] <= UNIT);
        }
    }
}

/// The table direction `t`.
fn direction(table: &Vec<i64>, t: usize) -> (r: (i64, i64))
    requires
        table@ == sine_table(),
        t < TURN,
    ensures
        (r.0 as int, r.1 as int) == unit_dir(t as int),
        -UNIT <= r.0 <= UNIT,
        -UNIT <= r.1 <= UNIT,
{
    proof {
        lemma_table_bounds();
    }
    let q = t / 64;
    let rr = t % 64;
    if q == 0 {
        (table[64 - rr], table[rr])
    } else if q == 1 {
        (-table[rr], table[64 - rr])
    } else if q == 2 {
        (-table[64 - rr], -table[rr])
    } else {
        (table[rr], -table[64 - rr])
    }
}

/// `radius * w / (UNIT * FINE)` rounded to the nearest integer.
fn scaled_offset(radius: i64, w: i128) -> (r: i64)
    requires
        0 <= radius <= 268435456,
        -UNIT * FINE <= w <= UNIT * FINE,
    ensures
        r == div_round(radius * w, UNIT * FINE),
        -radius <= r <= radius,
{
    let d: i128 = 68719476736;
    assert(-(268435456 * 68719476736) <= (radius as int) * (w as int) <= 268435456 * 68719476736) by (nonlinear_arith)
        requires
            0 <= radius <= 268435456,
            -68719476736 <= w <= 68719476736,
    ;
    let a = (radius as i128) * w;
    proof {
        lemma_ring_offset(radius as int, w as int);
    }
    let q = if a >= 0 { (a + d / 2) / d } else { -((-a + d / 2) / d) };
    q as i64
}

/// The point at distance `radius` from `(cx, cy)` at angle step `a` (see `ring_point`).
fn point_on_ring(table: &Vec<i64>, cx: i64, cy: i64, radius: i64, a: u128) -> (r: (i64, i64))
    requires
        table@ == sine_table(),
        a < (TURN * FINE) as int,
        0 <= radius <= 268435456,
        -536870912 <= cx <= 536870912,
        -536870912 <= cy <= 536870912,
    ensures
        (r.0 as int, r.1 as int) == ring_point((cx as int, cy as int), radius as int, a as int),
        cx - radius <= r.0 <= cx + radius,
        cy - radius <= r.1 <= cy + radius,
{
    let t = (a / 65536) as usize;
    let f = (a % 65536) as i128;
    let u0 = direction(table, t);
    let u1 = direction(table, (t + 1) % 256);
    assert(-(1048576 * 65536) <= (u0.0 as int) * (65536 - f) + (u1.0 as int) * f <= 1048576 * 65536) by (nonlinear_arith)
        requires
            -1048576 <= u0.0 <= 1048576,
            -1048576 <= u1.0 <= 1048576,
            0 <= f < 65536,
    ;
    assert(-(1048576 * 65536) <= (u0.1 as int) * (65536 - f) + (u1.1 as int) * f <= 1048576 * 65536) by (nonlinear_arith)
        requires
            -1048576 <= u0.1 <= 1048576,
            -1048576 <= u1.1 <= 1048576,
            0 <= f < 65536,
    ;
    assert(-(1048576 * 65536) <= (u0.0 as int) * (65536 - f) <= 1048576 * 65536) by (nonlinear_arith)
        requires
            -1048576 <= u0.0 <= 1048576,
            0 <= f < 65536,
    ;
    assert(-(1048576 * 65536) <= (u0.0 as int) * f <= 1048576 * 65536) by (nonlinear_arith)
        requires
            -1048576 <= u0.0 <= 1048576,
            0 <= f < 65536,
    ;
    assert(-(1048576 * 65536) <= (u1.0 as int) * (65536 - f) <= 1048576 * 65536) by (nonlinear_arith)
        requires
            -1048576 <= u1.0 <= 1048576,
            0 <= f < 65536,
    ;
    assert(-(1048576 * 65536) <= (u1.0 as int) * f <= 1048576 * 65536) by (nonlinear_arith)
        requires
            -1048576 <= u1.0 <= 1048576,
            0 <= f < 65536,
    ;
    assert(-(1048576 * 65536) <= (u0.1 as int) * (65536 - f) <= 1048576 * 65536) by (nonlinear_arith)
        requires
            -1048576 <= u0.1 <= 1048576,
            0 <= f < 65536,
    ;
    assert(-(1048576 * 65536) <= (u0.1 as int) * f <= 1048576 * 65536) by (nonlinear_arith)
        requires
            -1048576 <= u0.1 <= 1048576,
            0 <= f < 65536,
    ;
    assert(-(1048576 * 65536) <= (u1.1 as int) * (65536 - f) <= 1048576 * 65536) by (nonlinear_arith)
        requires
            -1048576 <= u1.1 <= 1048576,
            0 <= f < 65536,
    ;
    assert(-(1048576 * 65536) <= (u1.1 as int) * f <= 1048576 * 65536) by (nonlinear_arith)
        requires
            -1048576 <= u1.1 <= 1048576,
            0 <= f < 65536,
    ;
    let wx = (u0.0 as i128) * (65536 - f) + (u1.0 as i128) * f;
    let wy = (u0.1 as i128) * (65536 - f) + (u1.1 as i128) * f;
    let dx = scaled_offset(radius, wx);
    let dy = scaled_offset(radius, wy);
    (cx + dx, cy + dy)
}

proof fn lemma_ring_offset(radius: int, w: int)
    requires
        radius >= 0,
        -UNIT * FINE <= w <= UNIT * FINE,
    ensures
        -radius <= div_round(radius * w, UNIT * FINE) <= radius,
{
    let d = 68719476736int;
    if radius * w >= 0 {
        assert(radius * w <= radius * d) by (nonlinear_arith)
            requires
                radius >= 0,
                w <= d,
        ;
        assert((radius * w + d / 2) / d <= radius) by (nonlinear_arith)
            requires
                0 <= radius * w <= radius * d,
                d == 68719476736,
        ;
    } else {
        assert(-(radius * w) <= radius * d) by (nonlinear_arith)
            requires
                radius >= 0,
                -d <= w,
        ;
        assert((-(radius * w) + d / 2) / d <= radius) by (nonlinear_arith)
            requires
                0 <= -(radius * w) <= radius * d,
                d == 68719476736,
        ;
    }
}

proof fn lemma_count_monotone(l: Seq<Option<usize>>, c: int, a: int, b: int)
    requires
        0 <= a <= b,
    ensures
        count_label(l, c, a) <= count_label(l, c, b),
    decreases b - a,
{
    if a < b {
        lemma_count_monotone(l, c, a, b - 1);
    }
}

proof fn lemma_slot_in_turn(k: int, m: int)
    requires
        0 <= k < m,
    ensures
        0 <= slot_angle(k, m) < (TURN * FINE) as int,
{
    assert(0 <= k * 16777216 / m < 16777216) by (nonlinear_arith)
        requires
            0 <= k < m,
    ;
}

/// The seeded starting position of every node, from the component labels (see
/// `seed_point`). Every label must name a node index.
pub fn initialize_positions(labels: &Vec<Option<usize>>, config: &LayoutConfig) -> (r: Vec<Vec2>)
    requires
        config_wf(*config),
        forall|i: int| 0 <= i < labels@.len() && (#[trigger] labels@[i]) is Some ==> labels@[i]->0 < labels@.len(),
    ensures
        r@.len() == labels@.len(),
        all_in_box(r@),
        forall|i: int| 0 <= i < r@.len() ==> ((#[trigger] r@[i]).x as int, r@[i].y as int) == seed_point(labels@, *config, i),
{
    let n = labels.len();
    let ghost l = labels@;
    let table = sine_values();
    let mut sizes: Vec<usize> = Vec::new();
    let mut seen: Vec<usize> = Vec::new();
    let mut i: usize = 0;
    while i < n
        invariant
            n == l.len(),
            i <= n,
            sizes@.len() == i,
            seen@.len() == i,
            forall|c: int| 0 <= c < i ==> #[trigger] sizes@[c] == 0,
            forall|c: int| 0 <= c < i ==> #[trigger] seen@[c] == 0,
        decreases n - i,
    {
        sizes.push(0);
        seen.push(0);
        i += 1;
    }
    let mut m: usize = 0;
    i = 0;
    while i < n
        invariant
            n == l.len(),
            labels@ == l,
            forall|j: int| 0 <= j < n && (#[trigger] l[j]) is Some ==> l[j]->0 < n,
            i <= n,
            sizes@.len() == n,
            forall|c: int| 0 <= c < n ==> #[trigger] sizes@[c] == count_label(l, c, i as int),
            forall|c: int| 0 <= c < n ==> #[trigger] count_label(l, c, i as int) <= i,
            m == label_bound(l, i as int),
            m <= n,
            seen@.len() == n,
            forall|c: int| 0 <= c < n ==> #[trigger] seen@[c] == 0,
        decreases n - i,
    {
        if let Some(c) = labels[i] {
            assert(sizes@[c as int] == count_label(l, c as int, i as int));
            sizes.set(c, sizes[c] + 1);
            if c + 1 > m {
                m = c + 1;
            }
        }
        proof {
            assert forall|d: int| 0 <= d < n implies #[trigger] count_label(l, d, i + 1) <= i + 1 by {
                assert(count_label(l, d, i as int) <= i);
            }
        }
        i += 1;
    }
    proof {
        assert forall|c: int| 0 <= c < n implies #[trigger] sizes@[c] == count_label(l, c, n as int) by {}
    }
    let mut largest: usize = 0;
    let mut c: usize = 1;
    while c < m
        invariant
            n == l.len(),
            m <= n,
            1 <= c <= if m < 1 { 1 } else { m },
            sizes@.len() == n,
            forall|d: int| 0 <= d < n ==> #[trigger] sizes@[d] == count_label(l, d, n as int),
            largest == largest_below(l, c as int),
            largest < c,
            seen@.len() == n,
            forall|d: int| 0 <= d < n ==> #[trigger] seen@[d] == 0,
        decreases m - c,
    {
        if sizes[c] > sizes[largest] {
            largest = c;
        }
        c += 1;
    }
    assert(largest == largest_below(l, m as int));
    assert forall|d: int| 0 <= d < n implies #[trigger] seen@[d] == count_label(l, d, 0) by {}
    let cx = config.canvas_width / 2;
    let cy = config.canvas_height / 2;
    let mut out: Vec<Vec2> = Vec::new();
    i = 0;
    while i < n
        invariant
            n == l.len(),
            labels@ == l,
            config_wf(*config),
            table@ == sine_table(),
            forall|j: int| 0 <= j < n && (#[trigger] l[j]) is Some ==> l[j]->0 < n,
            m == label_bound(l, n as int),
            m <= n,
            largest == largest_below(l, m as int),
            cx == config.canvas_width / 2,
            cy == config.canvas_height / 2,
            sizes@.len() == n,
            forall|d: int| 0 <= d < n ==> #[trigger] sizes@[d] == count_label(l, d, n as int),
            seen@.len() == n,
            forall|d: int| 0 <= d < n ==> #[trigger] seen@[d] == count_label(l, d, i as int),
            i <= n,
            out@.len() == i,
            all_in_box(out@),
            forall|j: int| 0 <= j < i ==> ((#[trigger] out@[j]).x as int, out@[j].y as int) == seed_point(l, *config, j),
        decreases n - i,
    {
        let ghost out0 = out@;
        match labels[i] {
            None => {
                out.push(Vec2 { x: cx, y: cy });
            },
            Some(c) => {
                proof {
                    lemma_label_below_bound(l, c as int, i as int, n as int);
                    lemma_slot_in_turn(c as int, m as int);
                    lemma_count_monotone(l, c as int, i + 1, n as int);
                }
                let (ccx, ccy) = if c == largest {
                    (cx, cy)
                } else {
                    let slot = (c as u128) * 16777216 / (m as u128);
                    point_on_ring(&table, cx, cy, config.cluster_ring_radius, slot)
                };
                let size = sizes[c];
                let rank = seen[c];
                assert(rank < size);
                proof {
                    lemma_slot_in_turn(rank as int, size as int);
                }
                let t = (rank as u128) * 16777216 / (size as u128);
                let (px, py) = point_on_ring(&table, ccx, ccy, config.cluster_inner_radius, t);
                out.push(Vec2 { x: px, y: py });
                seen.set(c, rank + 1);
            },
        }
        proof {
            assert forall|j: int| 0 <= j < out@.len() implies in_box(#[trigger] out@[j]) by {
                if j < i {
                    assert(out@[j] == out0[j]);
                }
            }
            assert forall|j: int| 0 <= j <= i implies ((#[trigger] out@[j]).x as int, out@[j].y as int) == seed_point(l, *config, j) by {
                if j < i {
                    assert(out@[j] == out0[j]);
                }
            }
        }
        i += 1;
    }
    out
}

proof fn lemma_label_below_bound(l: Seq<Option<usize>>, c: int, i: int, n: int)
    requires
        0 <= i < n <= l.len(),
        l[i] is Some,
        l[i]->0 == c,
    ensures
        c < label_bound(l, n),
    decreases n,
{
    if i < n - 1 {
        lemma_label_below_bound(l, c, i, n - 1);
    }
}

proof fn lemma_bound_attained(l: Seq<Option<usize>>, k: int)
    requires
        0 <= k <= l.len(),
    ensures
        label_bound(l, k) >= 0,
        label_bound(l, k) > 0 ==> exists|a: int| 0 <= a < k && l[a] is Some && l[a]->0 == label_bound(l, k) - 1,
    decreases k,
{
    if k > 0 {
        lemma_bound_attained(l, k - 1);
    }
}

/// For dense labels, `label_bound` is the number of identifiers in use: exactly the
/// identifiers below it are used.
pub proof fn lemma_label_bound_counts(l: Seq<Option<usize>>, c: usize)
    requires
        labels_dense(l),
    ensures
        c < label_bound(l, l.len() as int) <==> label_used(l, c as int),
{
    let n = l.len() as int;
    lemma_bound_attained(l, n);
    if c < label_bound(l, n) {
        let a = choose|a: int| 0 <= a < n && l[a] is Some && l[a]->0 == label_bound(l, n) - 1;
        if c < l[a]->0 {
            assert(label_used(l, c as int));
        } else {
            assert(l[a] == Some(c));
            assert(label_used(l, c as int));
        }
    }
    if label_used(l, c as int) {
        let b = choose|b: int| 0 <= b < l.len() && #[trigger] l[b] == Some(c);
        lemma_label_below_bound(l, c as int, b, n);
    }
}

} // verus!
