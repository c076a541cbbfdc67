//! Closest pair of 2D points by an incremental, self-adjusting grid.
//!
//! The grid hashes every processed point into square cells whose side is
//! the best distance found so far (rounded up to an integer). A new point
//! can only beat that distance against points in its own or an adjacent
//! cell, so each step scans at most the 3x3 block of cells around the new
//! point; whenever a closer pair turns up, the whole grid is rebuilt at
//! the smaller cell size.

use vstd::prelude::*;

verus! {

use crate::point::{Point, COORD_LIMIT, dist2, in_bounds, isqrt, lemma_dist2_nonneg,
    lemma_dist2_symmetric};
use vstd::arithmetic::div_mod::{lemma_fundamental_div_mod, lemma_mod_bound};

/// The one failure the search can report: fewer than two input points.
#[derive(Clone, Copy, Debug, PartialEq, Eq, Structural)]
pub enum ClosestPairError {
    InvalidArgument,
}

/// Every point of `s` has coordinates within `COORD_LIMIT`.
pub open spec fn all_in_bounds(s: Seq<Point>) -> bool {
    forall|i: int| 0 <= i < s.len() ==> in_bounds(#[trigger] s[i])
}

/// Indices `i` and `j` name two distinct points of `s` at least as close
/// to each other as any pair of points of `s`.
pub open spec fn is_closest_pair(s: Seq<Point>, i: int, j: int) -> bool {
    &&& 0 <= i < s.len()
    &&& 0 <= j < s.len()
    &&& i != j
    &&& forall|k: int, l: int| 0 <= k < l < s.len() ==> dist2(s[k], s[l]) >= dist2(s[i], s[j])
}

/// Column of the cell holding `p` at cell size `c`: coordinates are shifted
/// by `COORD_LIMIT` into the non-negative range, then divided by `c`.
spec fn cell_x(p: Point, c: int) -> int {
    (p.x + COORD_LIMIT) / c
}

/// Row of the cell holding `p` at cell size `c`.
spec fn cell_y(p: Point, c: int) -> int {
    (p.y + COORD_LIMIT) / c
}

/// One cell of the spatial hash: its coordinates and the input indices of
/// the points stored in it, in insertion order.
struct Bucket {
    cx: i64,
    cy: i64,
    items: Vec<usize>,
}

/// The spatial hash. `min_pair` is the closest pair among the points
/// processed so far, `min_d2` its squared distance, and `cell` the cell
/// size: the smallest integer whose square is at least `min_d2`.
struct Grid {
    table: Vec<Bucket>,
    min_d2: i64,
    cell: i64,
    min_pair: (usize, usize),
}

/// Every index in the bucket names a processed point whose cell at size
/// `c` is exactly the bucket's key.
spec fn bucket_wf(b: Bucket, pts: Seq<Point>, m: int, c: int) -> bool {
    forall|t: int| 0 <= t < b.items@.len() ==> {
        &&& #[trigger] b.items@[t] < m
        &&& cell_x(pts[b.items@[t] as int], c) == b.cx
        &&& cell_y(pts[b.items@[t] as int], c) == b.cy
    }
}

/// All buckets are well formed and no two share a key.
spec fn table_wf(g: Grid, pts: Seq<Point>, m: int) -> bool {
    &&& forall|bi: int|
        0 <= bi < g.table@.len() ==> bucket_wf(#[trigger] g.table@[bi], pts, m, g.cell as int)
    &&& forall|b1: int, b2: int|
        0 <= b1 < b2 < g.table@.len() ==> !(#[trigger] g.table@[b1].cx == #[trigger] g.table@[b2].cx
            && g.table@[b1].cy == g.table@[b2].cy)
}

/// Point index `i` is stored somewhere in the table.
spec fn grid_has(g: Grid, i: int) -> bool {
    exists|bi: int, t: int|
        0 <= bi < g.table@.len() && 0 <= t < g.table@[bi].items@.len()
            && #[trigger] g.table@[bi].items@[t] == i
}

/// Every processed point is stored in the table.
spec fn grid_complete(g: Grid, m: int) -> bool {
    forall|i: int| 0 <= i < m ==> grid_has(g, i)
}

/// The grid invariant after the first `m` points have been processed:
/// `min_pair` is a pair of distinct processed points realizing `min_d2`,
/// no pair of processed points is closer than `min_d2`, the cell size is
/// the integer round-up of the distance `min_d2` squares, and the table
/// stores all processed points in their cells.
spec fn grid_inv(g: Grid, pts: Seq<Point>, m: int) -> bool {
    &&& 2 <= m <= pts.len()
    &&& 1 <= g.min_d2
    &&& 1 <= g.cell
    &&& (g.cell as int) * (g.cell as int) >= g.min_d2
    &&& ((g.cell as int) - 1) * ((g.cell as int) - 1) < g.min_d2
    &&& (g.min_pair.0 as int) < m
    &&& (g.min_pair.1 as int) < m
    &&& g.min_pair.0 != g.min_pair.1
    &&& dist2(pts[g.min_pair.0 as int], pts[g.min_pair.1 as int]) == g.min_d2
    &&& forall|i: int, j: int| 0 <= i < j < m ==> dist2(pts[i], pts[j]) >= g.min_d2
    &&& table_wf(g, pts, m)
    &&& grid_complete(g, m)
}

/// Shifted coordinates that land in cells two or more apart differ by at
/// least the cell size.
proof fn lemma_axis_cells_near(u: int, v: int, c: int)
    requires
        c >= 1,
        u >= 0,
        v >= 0,
        -c < u - v < c,
    ensures
        -1 <= u / c - v / c <= 1,
{
    lemma_fundamental_div_mod(u, c);
    lemma_fundamental_div_mod(v, c);
    lemma_mod_bound(u, c);
    lemma_mod_bound(v, c);
    let qu = u / c;
    let qv = v / c;
    assert(c * (qu - qv) == (u - v) - (u % c - v % c)) by (nonlinear_arith)
        requires
            u == c * qu + u % c,
            v == c * qv + v % c,
    ;
    assert(-1 <= qu - qv <= 1) by (nonlinear_arith)
        requires
            c >= 1,
            -2 * c < c * (qu - qv) < 2 * c,
    ;
}

/// Two points closer than `m` land in the same or adjacent cells whenever
/// the squared cell size is at least `m`.
proof fn lemma_close_points_near_cells(p: Point, q: Point, c: int, m: int)
    requires
        in_bounds(p),
        in_bounds(q),
        c >= 1,
        c * c >= m,
        dist2(p, q) < m,
    ensures
        -1 <= cell_x(p, c) - cell_x(q, c) <= 1,
        -1 <= cell_y(p, c) - cell_y(q, c) <= 1,
{
    let dx = p.x - q.x;
    let dy = p.y - q.y;
    assert(dx * dx >= 0 && dy * dy >= 0) by (nonlinear_arith);
    assert(-c < dx < c) by (nonlinear_arith)
        requires
            c >= 1,
            dx * dx < c * c,
    ;
    assert(-c < dy < c) by (nonlinear_arith)
        requires
            c >= 1,
            dy * dy < c * c,
    ;
    lemma_axis_cells_near(p.x + COORD_LIMIT, q.x + COORD_LIMIT, c);
    lemma_axis_cells_near(p.y + COORD_LIMIT, q.y + COORD_LIMIT, c);
}

/// Cell of `p` at cell size `c`, computed on coordinates shifted into the
/// non-negative range.
fn boxify(p: &Point, c: i64) -> (r: (i64, i64))
    requires
        in_bounds(*p),
        c >= 1,
    ensures
        r.0 == cell_x(*p, c as int),
        r.1 == cell_y(*p, c as int),
{
    let sx = p.x + COORD_LIMIT;
    let sy = p.y + COORD_LIMIT;
    let cx = ((sx as u64) / (c as u64)) as i64;
    let cy = ((sy as u64) / (c as u64)) as i64;
    (cx, cy)
}

/// Smallest integer whose square is at least `n`: the cell size matching
/// a squared distance of `n`.
fn ceil_sqrt(n: i64) -> (r: i64)
    requires
        n >= 1,
    ensures
        r >= 1,
        r * r >= n,
        (r - 1) * (r - 1) < n,
{
    let s = isqrt(n);
    if s * s == n {
        assert((s - 1) * (s - 1) < s * s) by (nonlinear_arith)
            requires
                s >= 1,
        ;
        s
    } else {
        assert(s <= 3_037_000_499) by (nonlinear_arith)
            requires
                s >= 0,
                s * s <= 0x7fff_ffff_ffff_ffff,
        ;
        s + 1
    }
}

/// Position of the bucket keyed `(cx, cy)`, if the table has one.
fn find_bucket(table: &Vec<Bucket>, cx: i64, cy: i64) -> (r: Option<usize>)
    ensures
        match r {
            Some(bi) => (bi as int) < table@.len() && table@[bi as int].cx == cx
                && table@[bi as int].cy == cy,
            None => forall|bi: int|
                0 <= bi < table@.len() ==> !(#[trigger] table@[bi].cx == cx && table@[bi].cy
                    == cy),
        },
{
    let mut i: usize = 0;
    while i < table.len()
        invariant
            i <= table@.len(),
            forall|bi: int| 0 <= bi < i ==> !(#[trigger] table@[bi].cx == cx && table@[bi].cy == cy),
        decreases table@.len() - i,
    {
        if table[i].cx == cx && table[i].cy == cy {
            return Some(i);
        }
        i = i + 1;
    }
    None
}

/// Store index `idx` in the cell of its point, appending to that cell's
/// bucket or opening a new one. Leaves every other grid field unchanged.
fn insert_point(g: &mut Grid, pts: &Vec<Point>, idx: usize, Ghost(m): Ghost<int>)
    requires
        table_wf(*old(g), pts@, m),
        0 <= idx < m <= pts@.len(),
        in_bounds(pts@[idx as int]),
        old(g).cell >= 1,
    ensures
        table_wf(*final(g), pts@, m),
        grid_has(*final(g), idx as int),
        forall|i: int| grid_has(*old(g), i) ==> grid_has(*final(g), i),
        final(g).min_d2 == old(g).min_d2,
        final(g).cell == old(g).cell,
        final(g).min_pair == old(g).min_pair,
{
    let ghost g0 = *old(g);
    let (cx, cy) = boxify(&pts[idx], g.cell);
    match find_bucket(&g.table, cx, cy) {
        Some(bi) => {
            let bucket = &mut g.table[bi];
            bucket.items.push(idx);
            proof {
                assert(g.table@[bi as int].items@ == g0.table@[bi as int].items@.push(idx));
                assert(grid_has(*g, idx as int)) by {
                    let t = g.table@[bi as int].items@.len() - 1;
                    assert(g.table@[bi as int].items@[t] == idx);
                }
            }
        },
        None => {
            let mut items: Vec<usize> = Vec::new();
            items.push(idx);
            g.table.push(Bucket { cx, cy, items });
            proof {
                let bi = g.table@.len() - 1;
                assert(g.table@[bi].items@[0] == idx);
                assert(grid_has(*g, idx as int));
            }
        },
    }
    proof {
        assert forall|i: int| grid_has(g0, i) implies grid_has(*g, i) by {
            let (bj, t): (int, int) = choose|bj: int, t: int|
                0 <= bj < g0.table@.len() && 0 <= t < g0.table@[bj].items@.len()
                    && #[trigger] g0.table@[bj].items@[t] == i;
            assert(g.table@[bj].items@[t] == i);
        }
    }
}

/// Every stored point has a bucket whose key is the point's cell and
/// which contains the point.
proof fn lemma_point_has_bucket(g: Grid, pts: Seq<Point>, m: int, i: int)
    requires
        table_wf(g, pts, m),
        grid_complete(g, m),
        0 <= i < m,
    ensures
        exists|bj: int|
            0 <= bj < g.table@.len() && #[trigger] g.table@[bj].cx == cell_x(
                pts[i],
                g.cell as int,
            ) && g.table@[bj].cy == cell_y(pts[i], g.cell as int) && exists|t: int|
                0 <= t < g.table@[bj].items@.len() && g.table@[bj].items@[t] == i,
{
    assert(grid_has(g, i));
    let (bj, t): (int, int) = choose|bj: int, t: int|
        0 <= bj < g.table@.len() && 0 <= t < g.table@[bj].items@.len()
            && #[trigger] g.table@[bj].items@[t] == i;
    assert(bucket_wf(g.table@[bj], pts, m, g.cell as int));
    assert(g.table@[bj].items@[t] == i);
    assert(g.table@[bj].cx == cell_x(pts[i], g.cell as int));
}

/// Cells already fully scanned once the first `a` columns of the 3x3
/// block around `(cx, cy)` are done.
spec fn scanned_cols(p: Point, c: int, cx: int, cy: int, a: int) -> bool {
    &&& cx - 1 <= cell_x(p, c) < cx - 1 + a
    &&& cy - 1 <= cell_y(p, c) <= cy + 1
}

/// Cells already fully scanned once, within column `a` of the block, the
/// first `b` rows are done.
spec fn scanned_upto(p: Point, c: int, cx: int, cy: int, a: int, b: int) -> bool {
    ||| scanned_cols(p, c, cx, cy, a)
    ||| (cell_x(p, c) == cx - 1 + a && cy - 1 <= cell_y(p, c) < cy - 1 + b)
}

/// Scan the 3x3 block of cells around the cell of point `k` for the
/// stored point closest to it. Returns that point and the squared
/// distance when it beats `min_d2`; returns nothing exactly when no
/// processed point is closer to point `k` than `min_d2`.
fn lookup(g: &Grid, pts: &Vec<Point>, k: usize) -> (r: Option<(usize, i64)>)
    requires
        grid_inv(*g, pts@, k as int),
        all_in_bounds(pts@),
        (k as int) < pts@.len(),
    ensures
        match r {
            Some(pr) => {
                &&& (pr.0 as int) < k as int
                &&& pr.1 == dist2(pts@[k as int], pts@[pr.0 as int])
                &&& pr.1 < g.min_d2
                &&& forall|i: int|
                    0 <= i < k as int ==> pr.1 <= dist2(pts@[k as int], #[trigger] pts@[i])
            },
            None => forall|i: int|
                0 <= i < k as int ==> dist2(pts@[k as int], #[trigger] pts@[i]) >= g.min_d2,
        },
{
    let ghost c = g.cell as int;
    let ghost pks = pts@[k as int];
    let (cx, cy) = boxify(&pts[k], g.cell);
    let pk = pts[k];
    let mut best_q: usize = k;
    let mut best_d2: i64 = g.min_d2;
    let mut a: usize = 0;
    while a < 3
        invariant
            grid_inv(*g, pts@, k as int),
            all_in_bounds(pts@),
            (k as int) < pts@.len(),
            c == g.cell as int,
            pks == pts@[k as int],
            pk == pts@[k as int],
            cx as int == cell_x(pks, c),
            cy as int == cell_y(pks, c),
            0 <= cx as int <= 2 * COORD_LIMIT,
            0 <= cy as int <= 2 * COORD_LIMIT,
            a <= 3,
            best_d2 <= g.min_d2,
            (best_q == k && best_d2 == g.min_d2) || ((best_q as int) < k as int && best_d2
                == dist2(pks, pts@[best_q as int]) && best_d2 < g.min_d2),
            forall|i: int|
                0 <= i < k as int && scanned_cols(#[trigger] pts@[i], c, cx as int, cy as int, a as int)
                    ==> best_d2 <= dist2(pks, pts@[i]),
        decreases 3 - a,
    {
        let nx = cx - 1 + (a as i64);
        let mut b: usize = 0;
        while b < 3
            invariant
                grid_inv(*g, pts@, k as int),
                all_in_bounds(pts@),
                (k as int) < pts@.len(),
                c == g.cell as int,
                pks == pts@[k as int],
                pk == pts@[k as int],
                cx as int == cell_x(pks, c),
                cy as int == cell_y(pks, c),
                0 <= cx as int <= 2 * COORD_LIMIT,
                0 <= cy as int <= 2 * COORD_LIMIT,
                a < 3,
                b <= 3,
                nx as int == cx as int - 1 + a as int,
                best_d2 <= g.min_d2,
                (best_q == k && best_d2 == g.min_d2) || ((best_q as int) < k as int && best_d2
                    == dist2(pks, pts@[best_q as int]) && best_d2 < g.min_d2),
                forall|i: int|
                    0 <= i < k as int && scanned_upto(#[trigger] pts@[i], c, cx as int, cy as int, a as int, b as int)
                        ==> best_d2 <= dist2(pks, pts@[i]),
            decreases 3 - b,
        {
            let ny = cy - 1 + (b as i64);
            match find_bucket(&g.table, nx, ny) {
                Some(bi) => {
                    let bucket = &g.table[bi];
                    assert(bucket_wf(g.table@[bi as int], pts@, k as int, c));
                    let mut t: usize = 0;
                    while t < bucket.items.len()
                        invariant
                            grid_inv(*g, pts@, k as int),
                            all_in_bounds(pts@),
                            (k as int) < pts@.len(),
                            c == g.cell as int,
                            pks == pts@[k as int],
                            pk == pts@[k as int],
                            t <= bucket.items@.len(),
                            bucket == g.table@[bi as int],
                            (bi as int) < g.table@.len(),
                            bucket_wf(*bucket, pts@, k as int, c),
                            best_d2 <= g.min_d2,
                            (best_q == k && best_d2 == g.min_d2) || ((best_q as int) < k as int
                                && best_d2 == dist2(pks, pts@[best_q as int]) && best_d2
                                < g.min_d2),
                            forall|i: int|
                                0 <= i < k as int && scanned_upto(#[trigger] pts@[i], c, cx as int, cy as int, a as int, b as int)
                                    ==> best_d2 <= dist2(pks, pts@[i]),
                            forall|u: int|
                                0 <= u < t ==> best_d2 <= dist2(
                                    pks,
                                    pts@[#[trigger] bucket.items@[u] as int],
                                ),
                        decreases bucket.items@.len() - t,
                    {
                        let idx = bucket.items[t];
                        let d = pk.distance_squared(&pts[idx]);
                        if d < best_d2 {
                            best_d2 = d;
                            best_q = idx;
                        }
                        t = t + 1;
                    }
                    proof {
                        assert forall|i: int|
                            0 <= i < k as int && scanned_upto(
                                pts@[i],
                                c,
                                cx as int,
                                cy as int,
                                a as int,
                                b as int + 1,
                            ) implies best_d2 <= dist2(pks, #[trigger] pts@[i]) by {
                            if !scanned_upto(pts@[i], c, cx as int, cy as int, a as int, b as int) {
                                assert(cell_x(pts@[i], c) == nx as int);
                                assert(cell_y(pts@[i], c) == ny as int);
                                lemma_point_has_bucket(*g, pts@, k as int, i);
                                let bj = choose|bj: int|
                                    0 <= bj < g.table@.len() && #[trigger] g.table@[bj].cx
                                        == cell_x(pts@[i], c) && g.table@[bj].cy == cell_y(
                                        pts@[i],
                                        c,
                                    ) && exists|t: int|
                                        0 <= t < g.table@[bj].items@.len()
                                            && g.table@[bj].items@[t] == i;
                                assert(bj == bi as int);
                                let u = choose|u: int|
                                    0 <= u < g.table@[bj].items@.len() && g.table@[bj].items@[u]
                                        == i;
                                assert(best_d2 <= dist2(pks, pts@[bucket.items@[u] as int]));
                            }
                        }
                    }
                },
                None => {
                    proof {
                        assert forall|i: int|
                            0 <= i < k as int && scanned_upto(
                                pts@[i],
                                c,
                                cx as int,
                                cy as int,
                                a as int,
                                b as int + 1,
                            ) implies best_d2 <= dist2(pks, #[trigger] pts@[i]) by {
                            if !scanned_upto(pts@[i], c, cx as int, cy as int, a as int, b as int) {
                                assert(cell_x(pts@[i], c) == nx as int);
                                assert(cell_y(pts@[i], c) == ny as int);
                                lemma_point_has_bucket(*g, pts@, k as int, i);
                                assert(false);
                            }
                        }
                    }
                },
            }
            b = b + 1;
        }
        a = a + 1;
    }
    if best_d2 < g.min_d2 {
        proof {
            assert forall|i: int| 0 <= i < k as int implies best_d2 <= dist2(
                pks,
                #[trigger] pts@[i],
            ) by {
                if !scanned_cols(pts@[i], c, cx as int, cy as int, 3) {
                    if dist2(pks, pts@[i]) < g.min_d2 {
                        lemma_close_points_near_cells(pks, pts@[i], c, g.min_d2 as int);
                        assert(false);
                    }
                }
            }
        }
        Some((best_q, best_d2))
    } else {
        proof {
            assert forall|i: int| 0 <= i < k as int implies dist2(pks, #[trigger] pts@[i])
                >= g.min_d2 by {
                if !scanned_cols(pts@[i], c, cx as int, cy as int, 3) {
                    if dist2(pks, pts@[i]) < g.min_d2 {
                        lemma_close_points_near_cells(pks, pts@[i], c, g.min_d2 as int);
                        assert(false);
                    }
                }
            }
        }
        None
    }
}

/// Index `i` occurs somewhere in `s`.
spec fn appears_in(s: Seq<usize>, i: int) -> bool {
    exists|w: int| 0 <= w < s.len() && s[w] == i
}

/// Fold point `k` into the grid. If a stored point coincides with it,
/// return that pair at once: squared distance zero is a global minimum
/// and a zero cell size would be meaningless. If a stored point is
/// strictly closer than `min_d2`, rebuild the whole table at the smaller
/// cell size; otherwise just store the point. The members of `min_pair`
/// stay indexed like every other point — a later point may lie closest
/// to one of them, and a lookup can only find what the table holds.
fn insert(g: &mut Grid, pts: &Vec<Point>, k: usize) -> (res: Option<(usize, usize)>)
    requires
        grid_inv(*old(g), pts@, k as int),
        all_in_bounds(pts@),
        (k as int) < pts@.len(),
    ensures
        match res {
            None => grid_inv(*final(g), pts@, k as int + 1),
            Some(pr) => (pr.0 as int) < pts@.len() && (pr.1 as int) < pts@.len() && pr.0 != pr.1
                && dist2(pts@[pr.0 as int], pts@[pr.1 as int]) == 0,
        },
{
    match lookup(g, pts, k) {
        Some((q, d2)) => {
            if d2 == 0 {
                return Some((k, q));
            }
            proof {
                lemma_dist2_nonneg(pts@[k as int], pts@[q as int]);
            }
            // A strictly closer pair: drain every bucket, then re-index
            // everything at the cell size matching the new distance.
            let mut collected: Vec<usize> = Vec::new();
            while g.table.len() > 0
                invariant
                    table_wf(*g, pts@, k as int),
                    forall|i: int|
                        0 <= i < k as int ==> grid_has(*g, i) || appears_in(collected@, i),
                    forall|w: int| 0 <= w < collected@.len() ==> (collected@[w] as int) < k as int,
                decreases g.table@.len(),
            {
                let ghost gpre = *g;
                let ghost colpre = collected@;
                let mut bucket = match g.table.pop() {
                    Some(bucket) => bucket,
                    None => {
                        proof {
                            assert(false);
                        }
                        return None;
                    },
                };
                collected.append(&mut bucket.items);
                proof {
                    let lastbi = gpre.table@.len() - 1;
                    assert(bucket_wf(gpre.table@[lastbi], pts@, k as int, gpre.cell as int));
                    assert forall|i: int|
                        0 <= i < k as int implies grid_has(*g, i) || appears_in(
                        collected@,
                        i,
                    ) by {
                        if grid_has(gpre, i) {
                            let (bj, t): (int, int) = choose|bj: int, t: int|
                                0 <= bj < gpre.table@.len() && 0 <= t
                                    < gpre.table@[bj].items@.len()
                                    && #[trigger] gpre.table@[bj].items@[t] == i;
                            if bj < lastbi {
                                assert(g.table@[bj].items@[t] == i);
                            } else {
                                assert(collected@[colpre.len() + t] == i);
                            }
                        } else {
                            let w = choose|w: int| 0 <= w < colpre.len() && colpre[w] == i;
                            assert(collected@[w] == i);
                            assert(appears_in(collected@, i));
                        }
                    }
                }
            }
            proof {
                assert forall|i: int| 0 <= i < k as int implies appears_in(collected@, i) by {
                    assert(!grid_has(*g, i));
                }
            }
            g.min_d2 = d2;
            g.min_pair = (k, q);
            g.cell = ceil_sqrt(d2);
            let ghost mid = *g;
            let mut u: usize = 0;
            while u < collected.len()
                invariant
                    table_wf(*g, pts@, k as int + 1),
                    all_in_bounds(pts@),
                    (k as int) < pts@.len(),
                    g.min_d2 == mid.min_d2,
                    g.cell == mid.cell,
                    g.min_pair == mid.min_pair,
                    g.cell >= 1,
                    u <= collected@.len(),
                    forall|w: int| 0 <= w < collected@.len() ==> (collected@[w] as int) < k as int,
                    forall|w: int| 0 <= w < u ==> grid_has(*g, #[trigger] collected@[w] as int),
                    forall|i: int| 0 <= i < k as int ==> appears_in(collected@, i),
                decreases collected@.len() - u,
            {
                insert_point(g, pts, collected[u], Ghost(k as int + 1));
                u = u + 1;
            }
            let ghost gbefore = *g;
            insert_point(g, pts, k, Ghost(k as int + 1));
            proof {
                assert forall|i: int, j: int| 0 <= i < j < k as int + 1 implies dist2(
                    pts@[i],
                    pts@[j],
                ) >= g.min_d2 by {
                    if j == k as int {
                        lemma_dist2_symmetric(pts@[i], pts@[j]);
                    }
                }
                assert forall|i: int| 0 <= i < k as int + 1 implies grid_has(*g, i) by {
                    if i < k as int {
                        assert(appears_in(collected@, i));
                        let w = choose|w: int| 0 <= w < collected@.len() && collected@[w] == i;
                        assert(grid_has(gbefore, collected@[w] as int));
                        assert(grid_has(gbefore, i));
                    }
                }
            }
            None
        },
        None => {
            proof {
                assert forall|bi: int|
                    0 <= bi < g.table@.len() implies bucket_wf(
                    #[trigger] g.table@[bi],
                    pts@,
                    k as int + 1,
                    g.cell as int,
                ) by {
                    assert(bucket_wf(g.table@[bi], pts@, k as int, g.cell as int));
                }
            }
            insert_point(g, pts, k, Ghost(k as int + 1));
            proof {
                assert forall|i: int, j: int| 0 <= i < j < k as int + 1 implies dist2(
                    pts@[i],
                    pts@[j],
                ) >= g.min_d2 by {
                    if j == k as int {
                        lemma_dist2_symmetric(pts@[i], pts@[j]);
                    }
                }
            }
            None
        },
    }
}

/// Seed a grid from the first two points: they become the initial
/// `min_pair` and are stored in the table like any later point.
fn make_grid(pts: &Vec<Point>) -> (g: Grid)
    requires
        all_in_bounds(pts@),
        pts@.len() >= 2,
        dist2(pts@[0], pts@[1]) >= 1,
    ensures
        grid_inv(g, pts@, 2),
{
    let d2 = pts[0].distance_squared(&pts[1]);
    let cell = ceil_sqrt(d2);
    let mut g = Grid { table: Vec::new(), min_d2: d2, cell: cell, min_pair: (0, 1) };
    insert_point(&mut g, pts, 0, Ghost(2));
    insert_point(&mut g, pts, 1, Ghost(2));
    g
}

/// Finds, among a set of 2D points, the two closest to each other.
pub trait ClosestPair {
    /// Returns the indices of two distinct input points whose squared
    /// distance is the minimum over all pairs; fails exactly when fewer
    /// than two points are supplied. On a two-point input, the result is
    /// those two points, with no grid involved.
    fn closest_pair(&self, points: &Vec<Point>) -> (r: Result<(usize, usize), ClosestPairError>)
        requires
            all_in_bounds(points@),
        ensures
            match r {
                Ok(pr) => {
                    &&& points@.len() >= 2
                    &&& is_closest_pair(points@, pr.0 as int, pr.1 as int)
                    &&& (points@.len() == 2 ==> pr == (0usize, 1usize))
                },
                Err(e) => points@.len() < 2 && e == ClosestPairError::InvalidArgument,
            },
    ;
}

/// The incremental grid algorithm, expected linear time on randomly
/// ordered inputs.
pub struct SarielHarPeled;

impl ClosestPair for SarielHarPeled {
    fn closest_pair(&self, points: &Vec<Point>) -> (r: Result<(usize, usize), ClosestPairError>) {
        let n = points.len();
        if n < 2 {
            return Err(ClosestPairError::InvalidArgument);
        }
        if n == 2 {
            return Ok((0, 1));
        }
        let d2_01 = points[0].distance_squared(&points[1]);
        if d2_01 == 0 {
            proof {
                assert forall|k: int, l: int| 0 <= k < l < points@.len() implies #[trigger] dist2(
                    points@[k],
                    points@[l],
                ) >= dist2(points@[0], points@[1]) by {
                    lemma_dist2_nonneg(points@[k], points@[l]);
                }
            }
            return Ok((0, 1));
        }
        let mut grid = make_grid(points);
        let mut k: usize = 2;
        while k < n
            invariant
                grid_inv(grid, points@, k as int),
                all_in_bounds(points@),
                n == points@.len(),
                3 <= n,
                2 <= k <= n,
            decreases n - k,
        {
            match insert(&mut grid, points, k) {
                Some(pr) => {
                    proof {
                        assert forall|i: int, j: int| 0 <= i < j < points@.len()
                            implies #[trigger] dist2(
                            points@[i],
                            points@[j],
                        ) >= dist2(points@[pr.0 as int], points@[pr.1 as int]) by {
                            lemma_dist2_nonneg(points@[i], points@[j]);
                        }
                    }
                    return Ok(pr);
                },
                None => {},
            }
            k = k + 1;
        }
        Ok(grid.min_pair)
    }
}

/// Two runs over the same points agree on the minimum: any two closest
/// pairs of one sequence are at the same squared distance, even when the
/// pairs themselves differ under ties.
pub proof fn lemma_closest_pair_distance_unique(
    s: Seq<Point>,
    i1: int,
    j1: int,
    i2: int,
    j2: int,
)
    requires
        is_closest_pair(s, i1, j1),
        is_closest_pair(s, i2, j2),
    ensures
        dist2(s[i1], s[j1]) == dist2(s[i2], s[j2]),
{
    lemma_dist2_symmetric(s[i1], s[j1]);
    lemma_dist2_symmetric(s[i2], s[j2]);
    if i1 < j1 {
        assert(dist2(s[i1], s[j1]) >= dist2(s[i2], s[j2]));
    } else {
        assert(dist2(s[j1], s[i1]) >= dist2(s[i2], s[j2]));
    }
    if i2 < j2 {
        assert(dist2(s[i2], s[j2]) >= dist2(s[i1], s[j1]));
    } else {
        assert(dist2(s[j2], s[i2]) >= dist2(s[i1], s[j1]));
    }
}

/// If two distinct input positions hold coincident points, every closest
/// pair is at squared distance zero.
pub proof fn lemma_coincident_forces_zero(s: Seq<Point>, k: int, l: int, i: int, j: int)
    requires
        0 <= k < s.len(),
        0 <= l < s.len(),
        k != l,
        dist2(s[k], s[l]) == 0,
        is_closest_pair(s, i, j),
    ensures
        dist2(s[i], s[j]) == 0,
{
    lemma_dist2_nonneg(s[i], s[j]);
    lemma_dist2_symmetric(s[k], s[l]);
    if k < l {
        assert(dist2(s[k], s[l]) >= dist2(s[i], s[j]));
    } else {
        assert(dist2(s[l], s[k]) >= dist2(s[i], s[j]));
    }
}

/// Two distinct positions holding the same point value put that value in
/// the multiset at least twice.
proof fn lemma_two_indices_count(s: Seq<Point>, k: int, l: int)
    requires
        0 <= k < l < s.len(),
        s[k] == s[l],
    ensures
        s.to_multiset().count(s[k]) >= 2,
{
    broadcast use vstd::seq_lib::group_to_multiset_ensures;
    broadcast use vstd::multiset::group_multiset_axioms;

    let s0 = s.subrange(0, l);
    let s1 = s.subrange(l, s.len() as int);
    assert(s == s0 + s1);
    vstd::seq_lib::lemma_multiset_commutative(s0, s1);
    assert(s0.contains(s[k]));
    assert(s1.contains(s[l])) by {
        assert(s1[0] == s[l]);
    }
    assert(s0.to_multiset().count(s[k]) > 0);
    assert(s1.to_multiset().count(s[l]) > 0);
}

/// A value counted at least twice sits at two distinct positions.
proof fn lemma_count2_two_indices(s: Seq<Point>, v: Point)
    requires
        s.to_multiset().count(v) >= 2,
    ensures
        exists|k: int, l: int| #![trigger s[k], s[l]] 0 <= k < l < s.len() && s[k] == v && s[l] == v,
{
    broadcast use vstd::seq_lib::group_to_multiset_ensures;
    broadcast use vstd::multiset::group_multiset_axioms;

    assert(s.contains(v));
    let k = choose|k: int| 0 <= k < s.len() && s[k] == v;
    let r = s.remove(k);
    assert(r.to_multiset() == s.to_multiset().remove(s[k]));
    assert(r.to_multiset().count(v) >= 1);
    assert(r.contains(v));
    let k2 = choose|k2: int| 0 <= k2 < r.len() && r[k2] == v;
    if k2 < k {
        assert(s[k2] == v && s[k] == v);
    } else {
        assert(s[k2 + 1] == v && s[k] == v);
    }
}

/// Any unordered pair of positions of `s1` has a matching ordered pair of
/// positions of `s2` at the same squared distance, when `s2` holds the
/// same points as `s1` in some order.
proof fn lemma_pair_carries_over(s1: Seq<Point>, s2: Seq<Point>, k: int, l: int)
    requires
        s1.to_multiset() == s2.to_multiset(),
        0 <= k < l < s1.len(),
    ensures
        exists|k2: int, l2: int|
            0 <= k2 < l2 < s2.len() && #[trigger] dist2(s2[k2], s2[l2]) == dist2(s1[k], s1[l]),
{
    broadcast use vstd::seq_lib::group_to_multiset_ensures;
    broadcast use vstd::multiset::group_multiset_axioms;

    let u = s1[k];
    let v = s1[l];
    if u == v {
        lemma_two_indices_count(s1, k, l);
        lemma_count2_two_indices(s2, u);
        let (k2, l2): (int, int) = choose|k2: int, l2: int|
            #![trigger s2[k2], s2[l2]]
            0 <= k2 < l2 < s2.len() && s2[k2] == u && s2[l2] == u;
        assert(dist2(s2[k2], s2[l2]) == dist2(s1[k], s1[l]));
    } else {
        assert(s1.contains(u));
        assert(s1.contains(v));
        assert(s2.to_multiset().count(u) > 0);
        assert(s2.to_multiset().count(v) > 0);
        assert(s2.contains(u));
        assert(s2.contains(v));
        let k2 = choose|k2: int| 0 <= k2 < s2.len() && s2[k2] == u;
        let l2 = choose|l2: int| 0 <= l2 < s2.len() && s2[l2] == v;
        if k2 < l2 {
            assert(dist2(s2[k2], s2[l2]) == dist2(s1[k], s1[l]));
        } else {
            lemma_dist2_symmetric(u, v);
            assert(dist2(s2[l2], s2[k2]) == dist2(s1[k], s1[l]));
        }
    }
}

/// Reordering the input points does not change the minimum pairwise
/// squared distance: closest pairs of two permutations of the same
/// points are at equal squared distance.
pub proof fn lemma_permutation_same_min(
    s1: Seq<Point>,
    s2: Seq<Point>,
    i1: int,
    j1: int,
    i2: int,
    j2: int,
)
    requires
        s1.to_multiset() == s2.to_multiset(),
        is_closest_pair(s1, i1, j1),
        is_closest_pair(s2, i2, j2),
    ensures
        dist2(s1[i1], s1[j1]) == dist2(s2[i2], s2[j2]),
{
    lemma_dist2_symmetric(s1[i1], s1[j1]);
    lemma_dist2_symmetric(s2[i2], s2[j2]);
    let (a1, b1): (int, int) = if i1 < j1 {
        (i1, j1)
    } else {
        (j1, i1)
    };
    let (a2, b2): (int, int) = if i2 < j2 {
        (i2, j2)
    } else {
        (j2, i2)
    };
    lemma_pair_carries_over(s1, s2, a1, b1);
    let (k2, l2): (int, int) = choose|k2: int, l2: int|
        0 <= k2 < l2 < s2.len() && #[trigger] dist2(s2[k2], s2[l2]) == dist2(s1[a1], s1[b1]);
    assert(dist2(s1[i1], s1[j1]) >= dist2(s2[i2], s2[j2]));
    lemma_pair_carries_over(s2, s1, a2, b2);
    let (k1, l1): (int, int) = choose|k1: int, l1: int|
        0 <= k1 < l1 < s1.len() && #[trigger] dist2(s1[k1], s1[l1]) == dist2(s2[a2], s2[b2]);
    assert(dist2(s2[i2], s2[j2]) >= dist2(s1[i1], s1[j1]));
}

} // verus!
