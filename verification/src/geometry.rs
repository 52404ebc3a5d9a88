use vstd::prelude::*;

verus! {

use vstd::arithmetic::div_mod::{
    lemma_fundamental_div_mod,
    lemma_fundamental_div_mod_converse_mod,
    lemma_fundamental_div_mod_converse_div,
    lemma_small_mod,
    lemma_mod_division_less_than_divisor,
};

/// Dimensions of a global equirectangular grid: `nx` columns (longitude)
/// by `ny` rows (latitude). Cells are addressed by the linear index
/// `row * nx + col`; column indexing wraps modulo `nx`, rows do not wrap.
pub struct GeoGrid {
    pub nx: usize,
    pub ny: usize,
}

impl GeoGrid {
    /// A grid is well formed when both dimensions are positive and the
    /// cell count fits in a linear `usize` index.
    pub open spec fn wf(&self) -> bool {
        &&& self.nx > 0
        &&& self.ny > 0
        &&& self.nx * self.ny <= usize::MAX
    }
}

/// Wrap a signed column index onto `[0, nx)`, so that column `-1` is the
/// last column and column `nx` is the first.
pub fn wrap_i(i: isize, nx: usize) -> (r: usize)
    requires
        nx > 0,
        nx <= isize::MAX as usize,
    ensures
        r < nx,
        r == (i as int) % (nx as int),
{
    if i >= 0 {
        (i as usize) % nx
    } else {
        let pos = (-(i + 1)) as usize;
        let m = pos % nx;
        proof {
            let x = i as int;
            let n = nx as int;
            let y = pos as int;
            lemma_fundamental_div_mod(y, n);
            assert(x == (-(y / n) - 1) * n + (n - 1 - (y % n))) by (nonlinear_arith)
                requires
                    y == n * (y / n) + (y % n),
                    x == -y - 1,
            ;
            lemma_fundamental_div_mod_converse_mod(x, n, -(y / n) - 1, n - 1 - (y % n));
        }
        nx - 1 - m
    }
}

/// Shortest circular distance between columns `a` and `b` on a ring of
/// `nx` columns.
pub open spec fn circ_dist(a: int, b: int, nx: int) -> int {
    let d1 = (a - b) % nx;
    let d2 = (b - a) % nx;
    if d1 <= d2 {
        d1
    } else {
        d2
    }
}

/// First candidate row of a window of half-height `j_pad` around row `j0`
/// (rows are clamped at the poles, never wrapped).
pub open spec fn j_min_of(j0: int, j_pad: int) -> int {
    if j0 - j_pad < 0 {
        0
    } else {
        j0 - j_pad
    }
}

/// Last candidate row of a window of half-height `j_pad` around row `j0`.
pub open spec fn j_max_of(j0: int, j_pad: int, ny: int) -> int {
    if j0 + j_pad > ny - 1 {
        ny - 1
    } else {
        j0 + j_pad
    }
}

/// Number of rows in the clamped window.
pub open spec fn row_span(j0: int, j_pad: int, ny: int) -> int {
    j_max_of(j0, j_pad, ny) - j_min_of(j0, j_pad) + 1
}

/// Number of columns scanned in one row for a column half-width `p`:
/// the full window `2p + 1`, clamped so a row is never scanned twice.
pub open spec fn row_count(p: int, nx: int) -> int {
    if 2 * p + 1 <= nx {
        2 * p + 1
    } else {
        nx
    }
}

/// The candidate cells of row `j`: the columns of the window of half-width
/// `p` around center column `i0`, wrapped modulo `nx`, in scan order
/// starting at offset `-p`.
pub open spec fn row_seq(nx: int, i0: int, p: int, j: int) -> Seq<int> {
    Seq::new(row_count(p, nx) as nat, |t: int| j * nx + (i0 - p + t) % nx)
}

/// The candidate cells of a whole window: the rows starting at `j`, one
/// per entry of `pads`, concatenated in row order.
pub open spec fn window_seq(nx: int, i0: int, j: int, pads: Seq<int>) -> Seq<int>
    decreases pads.len(),
{
    if pads.len() == 0 {
        Seq::empty()
    } else {
        row_seq(nx, i0, pads.first(), j) + window_seq(nx, i0, j + 1, pads.drop_first())
    }
}

/// Two distinct offsets below `nx` land on distinct wrapped columns.
proof fn lemma_mod_shift_injective(a: int, t1: int, t2: int, nx: int)
    requires
        0 <= t1 < t2 < nx,
    ensures
        (a + t1) % nx != (a + t2) % nx,
{
    lemma_fundamental_div_mod(a + t1, nx);
    lemma_fundamental_div_mod(a + t2, nx);
    if (a + t1) % nx == (a + t2) % nx {
        let q1 = (a + t1) / nx;
        let q2 = (a + t2) / nx;
        assert(false) by (nonlinear_arith)
            requires
                a + t1 == nx * q1 + (a + t1) % nx,
                a + t2 == nx * q2 + (a + t2) % nx,
                (a + t1) % nx == (a + t2) % nx,
                0 <= t1 < t2 < nx,
        ;
    }
}

/// Two integers that differ by a multiple of `n` have the same remainder.
proof fn lemma_cong(a: int, b: int, k: int, n: int)
    requires
        n > 0,
        a == b + k * n,
    ensures
        a % n == b % n,
{
    lemma_fundamental_div_mod(b, n);
    lemma_mod_division_less_than_divisor(b, n);
    let q = b / n;
    let r = b % n;
    assert(a == (q + k) * n + r) by (nonlinear_arith)
        requires
            b == n * q + r,
            a == b + k * n,
    ;
    lemma_fundamental_div_mod_converse_mod(a, n, q + k, r);
}

/// Each cell of a row window lies in row `j`, and its column is within
/// circular distance `p` of the center column unless the window already
/// spans the full ring.
proof fn lemma_row_seq_elem(nx: int, i0: int, p: int, j: int, t: int)
    requires
        nx > 0,
        0 <= i0 < nx,
        p >= 0,
        j >= 0,
        0 <= t < row_count(p, nx),
    ensures
        row_seq(nx, i0, p, j)[t] / nx == j,
        row_seq(nx, i0, p, j)[t] % nx == (i0 - p + t) % nx,
        j * nx <= row_seq(nx, i0, p, j)[t] < (j + 1) * nx,
        2 * p + 1 <= nx ==> circ_dist(row_seq(nx, i0, p, j)[t] % nx, i0, nx) <= p,
{
    let c = (i0 - p + t) % nx;
    lemma_mod_division_less_than_divisor(i0 - p + t, nx);
    assert(0 <= c < nx);
    let e = j * nx + c;
    lemma_fundamental_div_mod_converse_mod(e, nx, j, c);
    lemma_fundamental_div_mod_converse_div(e, nx, j, c);
    assert(e < (j + 1) * nx) by (nonlinear_arith)
        requires
            e == j * nx + c,
            c < nx,
    ;
    if 2 * p + 1 <= nx {
        // the column offset from the center is t - p, between -p and p
        lemma_fundamental_div_mod(i0 - p + t, nx);
        let q = (i0 - p + t) / nx;
        assert(i0 - p + t == nx * q + c);
        if t >= p {
            assert(c - i0 == (t - p) + (-q) * nx) by (nonlinear_arith)
                requires
                    i0 - p + t == nx * q + c,
            ;
            lemma_cong(c - i0, t - p, -q, nx);
            lemma_small_mod((t - p) as nat, nx as nat);
            lemma_mod_division_less_than_divisor(i0 - c, nx);
            assert(circ_dist(c, i0, nx) <= p);
        } else {
            assert(i0 - c == (p - t) + q * nx) by (nonlinear_arith)
                requires
                    i0 - p + t == nx * q + c,
            ;
            lemma_cong(i0 - c, p - t, q, nx);
            lemma_small_mod((p - t) as nat, nx as nat);
            lemma_mod_division_less_than_divisor(c - i0, nx);
            assert(circ_dist(c, i0, nx) <= p);
        }
    }
}

/// A row window of half-width `p` contains every column within circular
/// distance `p` of the center column (and every column at all once the
/// window spans the full ring).
proof fn lemma_row_seq_cover(nx: int, i0: int, p: int, j: int, i: int)
    requires
        nx > 0,
        0 <= i0 < nx,
        p >= 0,
        j >= 0,
        0 <= i < nx,
        circ_dist(i, i0, nx) <= p || 2 * p + 1 > nx,
    ensures
        row_seq(nx, i0, p, j).contains(j * nx + i),
{
    let s = row_seq(nx, i0, p, j);
    lemma_small_mod(i as nat, nx as nat);
    if 2 * p + 1 > nx {
        // the window spans the full ring: offset (i - (i0 - p)) % nx hits i
        let t = (i - i0 + p) % nx;
        lemma_mod_division_less_than_divisor(i - i0 + p, nx);
        assert(0 <= t < row_count(p, nx));
        lemma_fundamental_div_mod(i - i0 + p, nx);
        let q = (i - i0 + p) / nx;
        assert(i0 - p + t == i + (-q) * nx) by (nonlinear_arith)
            requires
                i - i0 + p == nx * q + t,
        ;
        lemma_cong(i0 - p + t, i, -q, nx);
        assert(s[t] == j * nx + i);
        assert(s.contains(j * nx + i));
    } else {
        let d1 = (i - i0) % nx;
        let d2 = (i0 - i) % nx;
        lemma_mod_division_less_than_divisor(i - i0, nx);
        lemma_mod_division_less_than_divisor(i0 - i, nx);
        if d1 <= p {
            let t = d1 + p;
            assert(0 <= t < row_count(p, nx));
            lemma_fundamental_div_mod(i - i0, nx);
            let q = (i - i0) / nx;
            assert(i0 - p + t == i + (-q) * nx) by (nonlinear_arith)
                requires
                    i - i0 == nx * q + d1,
                    t == d1 + p,
            ;
            lemma_cong(i0 - p + t, i, -q, nx);
            assert(s[t] == j * nx + i);
            assert(s.contains(j * nx + i));
        } else {
            assert(d2 <= p);
            let t = p - d2;
            assert(0 <= t < row_count(p, nx));
            lemma_fundamental_div_mod(i0 - i, nx);
            let q = (i0 - i) / nx;
            assert(i0 - p + t == i + q * nx) by (nonlinear_arith)
                requires
                    i0 - i == nx * q + d2,
                    t == p - d2,
            ;
            lemma_cong(i0 - p + t, i, q, nx);
            assert(s[t] == j * nx + i);
            assert(s.contains(j * nx + i));
        }
    }
}

/// Appending one more row to a window appends that row's cells.
proof fn lemma_window_seq_snoc(nx: int, i0: int, j: int, pads: Seq<int>, r: int)
    requires
        0 <= r < pads.len(),
    ensures
        window_seq(nx, i0, j, pads.take(r + 1)) == window_seq(nx, i0, j, pads.take(r)) + row_seq(
            nx,
            i0,
            pads[r],
            j + r,
        ),
    decreases r,
{
    if r == 0 {
        assert(pads.take(0) =~= Seq::<int>::empty());
        assert(pads.take(1).drop_first() =~= Seq::<int>::empty());
        assert(pads.take(1).first() == pads[0]);
        assert(window_seq(nx, i0, j + 1, Seq::<int>::empty()) =~= Seq::<int>::empty());
        assert(window_seq(nx, i0, j, pads.take(1)) == row_seq(nx, i0, pads.take(1).first(), j)
            + window_seq(nx, i0, j + 1, pads.take(1).drop_first()));
        assert(window_seq(nx, i0, j, pads.take(1)) =~= row_seq(nx, i0, pads[0], j));
        assert(window_seq(nx, i0, j, pads.take(0)) + row_seq(nx, i0, pads[0], j) =~= row_seq(
            nx,
            i0,
            pads[0],
            j,
        ));
    } else {
        let tail = pads.drop_first();
        assert(pads.take(r + 1).first() == pads.first());
        assert(pads.take(r + 1).drop_first() =~= tail.take(r));
        assert(pads.take(r).first() == pads.first());
        assert(pads.take(r).drop_first() =~= tail.take(r - 1));
        lemma_window_seq_snoc(nx, i0, j + 1, tail, r - 1);
        assert(tail[r - 1] == pads[r]);
        assert(window_seq(nx, i0, j, pads.take(r + 1)) == row_seq(nx, i0, pads.first(), j)
            + window_seq(nx, i0, j + 1, tail.take(r)));
        assert(window_seq(nx, i0, j + 1, tail.take(r)) == window_seq(nx, i0, j + 1, tail.take(r - 1))
            + row_seq(nx, i0, pads[r], j + r));
        assert(window_seq(nx, i0, j, pads.take(r + 1)) =~= window_seq(nx, i0, j, pads.take(r))
            + row_seq(nx, i0, pads[r], j + r));
    }
}

/// Every cell of a window lies in one of its rows, with a column inside
/// that row's half-width (unless saturated), and no cell repeats.
proof fn lemma_window_props(nx: int, i0: int, j: int, pads: Seq<int>)
    requires
        nx > 0,
        0 <= i0 < nx,
        j >= 0,
        forall|k: int| 0 <= k < pads.len() ==> pads[k] >= 0,
    ensures
        window_seq(nx, i0, j, pads).no_duplicates(),
        forall|m: int|
            0 <= m < window_seq(nx, i0, j, pads).len() ==> {
                let e = #[trigger] window_seq(nx, i0, j, pads)[m];
                &&& j <= e / nx < j + pads.len()
                &&& e == nx * (e / nx) + e % nx
                &&& 0 <= e % nx < nx
                &&& (circ_dist(e % nx, i0, nx) <= pads[e / nx - j] || 2 * pads[e / nx - j] + 1
                    > nx)
            },
    decreases pads.len(),
{
    if pads.len() == 0 {
    } else {
        let p = pads.first();
        let head = row_seq(nx, i0, p, j);
        let tail = window_seq(nx, i0, j + 1, pads.drop_first());
        let whole = window_seq(nx, i0, j, pads);
        assert(whole == head + tail);
        assert forall|t: int| 0 <= t < head.len() implies {
            &&& head[t] / nx == j
            &&& head[t] == nx * j + head[t] % nx
            &&& 0 <= head[t] % nx < nx
            &&& (circ_dist(head[t] % nx, i0, nx) <= p || 2 * p + 1 > nx)
        } by {
            lemma_row_seq_elem(nx, i0, p, j, t);
            lemma_fundamental_div_mod(head[t], nx);
        }
        assert forall|t1: int, t2: int| 0 <= t1 < t2 < head.len() implies head[t1] != head[t2] by {
            lemma_row_seq_elem(nx, i0, p, j, t1);
            lemma_row_seq_elem(nx, i0, p, j, t2);
            lemma_mod_shift_injective(i0 - p, t1, t2, nx);
        }
        lemma_window_props(nx, i0, j + 1, pads.drop_first());
        // rows of the tail are strictly below row j, so head and tail are disjoint
        assert forall|t: int, m: int| 0 <= t < head.len() && 0 <= m < tail.len() implies head[t]
            != tail[m] by {
            lemma_row_seq_elem(nx, i0, p, j, t);
        }
        assert(whole.no_duplicates());
        assert forall|m: int| 0 <= m < whole.len() implies {
            let e = #[trigger] whole[m];
            &&& j <= e / nx < j + pads.len()
            &&& e == nx * (e / nx) + e % nx
            &&& 0 <= e % nx < nx
            &&& (circ_dist(e % nx, i0, nx) <= pads[e / nx - j] || 2 * pads[e / nx - j] + 1 > nx)
        } by {
            if m < head.len() {
                assert(whole[m] == head[m]);
            } else {
                assert(whole[m] == tail[m - head.len()]);
            }
        }
    }
}

/// A window contains every cell whose row is one of its rows and whose
/// column is within that row's half-width of the center column.
proof fn lemma_window_cover(nx: int, i0: int, j: int, pads: Seq<int>, r: int, i: int)
    requires
        nx > 0,
        0 <= i0 < nx,
        j >= 0,
        forall|k: int| 0 <= k < pads.len() ==> pads[k] >= 0,
        0 <= r < pads.len(),
        0 <= i < nx,
        circ_dist(i, i0, nx) <= pads[r] || 2 * pads[r] + 1 > nx,
    ensures
        window_seq(nx, i0, j, pads).contains((j + r) * nx + i),
    decreases r,
{
    let head = row_seq(nx, i0, pads.first(), j);
    let tail = window_seq(nx, i0, j + 1, pads.drop_first());
    let whole = window_seq(nx, i0, j, pads);
    assert(whole == head + tail);
    if r == 0 {
        lemma_row_seq_cover(nx, i0, pads.first(), j, i);
        let t = choose|t: int| 0 <= t < head.len() && head[t] == j * nx + i;
        assert(whole[t] == j * nx + i);
        assert(whole.contains((j + 0) * nx + i));
    } else {
        lemma_window_cover(nx, i0, j + 1, pads.drop_first(), r - 1, i);
        let t = choose|t: int|
            0 <= t < tail.len() && tail[t] == (j + 1 + (r - 1)) * nx + i;
        assert(whole[head.len() + t] == (j + r) * nx + i);
        assert(whole.contains((j + r) * nx + i));
    }
}

/// Whether cell `(j, i)` (row, column) lies inside the clamped bounding
/// box around `center`: its row is within `j_pad` rows of the center row,
/// and its column is within that row's half-width of the center column.
pub open spec fn in_window(grid: GeoGrid, center: int, j_pad: int, pads: Seq<usize>, j: int, i: int) -> bool {
    let nxi = grid.nx as int;
    let jlo = j_min_of(center / nxi, j_pad);
    &&& jlo <= j <= j_max_of(center / nxi, j_pad, grid.ny as int)
    &&& 0 <= i < nxi
    &&& circ_dist(i, center % nxi, nxi) <= pads[j - jlo]
}

/// All candidate cells of the bounding box around `center`: `j_pad` rows
/// above and below (clamped at the poles), and in each candidate row the
/// columns within that row's half-width from `i_pads` (wrapped, clamped to
/// one full scan of the row). The result is exactly `window_seq` applied
/// to the window: rows in increasing order, each row scanned from offset
/// `-p`, with no duplicates; every cell of the box appears.
///
/// Callers pick `j_pad` and `i_pads` so that the box is a superset of a
/// great-circle disc; the exact distance check is theirs.
pub fn window_candidates(grid: &GeoGrid, center: usize, j_pad: usize, i_pads: &Vec<usize>) -> (out:
    Vec<usize>)
    requires
        grid.wf(),
        grid.nx <= usize::MAX / 2,
        center < grid.nx * grid.ny,
        i_pads@.len() == row_span(
            center as int / grid.nx as int,
            j_pad as int,
            grid.ny as int,
        ),
        forall|k: int| 0 <= k < i_pads@.len() ==> (#[trigger] i_pads@[k]) <= grid.nx,
    ensures
        out@.map_values(|v: usize| v as int) == window_seq(
            grid.nx as int,
            center as int % grid.nx as int,
            j_min_of(center as int / grid.nx as int, j_pad as int),
            i_pads@.map_values(|p: usize| p as int),
        ),
        out@.no_duplicates(),
        forall|m: int| 0 <= m < out@.len() ==> (#[trigger] out@[m]) < grid.nx * grid.ny,
        forall|m: int|
            0 <= m < out@.len() ==> {
                let e = (#[trigger] out@[m]) as int;
                let nxi = grid.nx as int;
                let jlo = j_min_of(center as int / nxi, j_pad as int);
                &&& jlo <= e / nxi <= j_max_of(center as int / nxi, j_pad as int, grid.ny as int)
                &&& (circ_dist(e % nxi, center as int % nxi, nxi) <= i_pads@[e / nxi - jlo] || 2
                    * i_pads@[e / nxi - jlo] + 1 > nxi)
            },
        forall|j: int, i: int|
            #[trigger] in_window(*grid, center as int, j_pad as int, i_pads@, j, i) ==> out@.contains(
                ((j * grid.nx as int + i) as usize),
            ),
{
    let nx = grid.nx;
    let ny = grid.ny;
    let i0 = center % nx;
    let j0 = center / nx;
    proof {
        lemma_mod_division_less_than_divisor(center as int, nx as int);
        lemma_fundamental_div_mod(center as int, nx as int);
        assert((center as int) / (nx as int) < (ny as int)) by (nonlinear_arith)
            requires
                (center as int) < (nx as int) * (ny as int),
                nx as int > 0,
                (center as int) == (nx as int) * ((center as int) / (nx as int)) + (center as int) % (nx as int),
                0 <= (center as int) % (nx as int),
        ;
    }
    let j_lo = if j0 > j_pad {
        j0 - j_pad
    } else {
        0
    };
    let j_hi = if j_pad >= ny - 1 - j0 {
        ny - 1
    } else {
        j0 + j_pad
    };
    let ghost nxi = nx as int;
    let ghost padsi = i_pads@.map_values(|p: usize| p as int);
    let mut out: Vec<usize> = Vec::new();
    let mut j = j_lo;
    while j <= j_hi
        invariant
            grid.wf(),
            nx == grid.nx,
            ny == grid.ny,
            nx <= usize::MAX / 2,
            nxi == nx as int,
            0 <= i0 < nx,
            j0 < ny,
            j_lo == j_min_of(j0 as int, j_pad as int),
            j_hi == j_max_of(j0 as int, j_pad as int, ny as int),
            j_lo <= j0,
            j_lo <= j <= j_hi + 1,
            padsi == i_pads@.map_values(|p: usize| p as int),
            padsi.len() == j_hi - j_lo + 1,
            forall|k: int| 0 <= k < i_pads@.len() ==> (#[trigger] i_pads@[k]) <= nx,
            out@.map_values(|v: usize| v as int) == window_seq(
                nxi,
                i0 as int,
                j_lo as int,
                padsi.take(j - j_lo),
            ),
        decreases j_hi + 1 - j,
    {
        let p = i_pads[j - j_lo];
        let count = if p <= (nx - 1) / 2 {
            2 * p + 1
        } else {
            nx
        };
        proof {
            assert(count as int == row_count(p as int, nxi));
        }
        let base = (i0 + (nx - p)) % nx;
        let ghost row = row_seq(nxi, i0 as int, p as int, j as int);
        let mut t: usize = 0;
        while t < count
            invariant
                grid.wf(),
                nx == grid.nx,
                nx <= usize::MAX / 2,
                nxi == nx as int,
                ny == grid.ny,
                0 <= i0 < nx,
                p <= nx,
                count as int == row_count(p as int, nxi),
                count <= nx,
                base == (i0 as int + (nx - p) as int) % nxi,
                base < nx,
                j < ny,
                row == row_seq(nxi, i0 as int, p as int, j as int),
                0 <= t <= count,
                out@.map_values(|v: usize| v as int) == window_seq(
                    nxi,
                    i0 as int,
                    j_lo as int,
                    padsi.take(j - j_lo),
                ) + row.take(t as int),
            decreases count - t,
        {
            let col = (base + t) % nx;
            proof {
                // (base + t) % nx == (i0 - p + t) % nx
                lemma_fundamental_div_mod(i0 as int + (nx - p) as int, nxi);
                let q = (i0 as int + (nx - p) as int) / nxi;
                assert(base as int + t as int == (i0 as int - p as int + t as int) + (1 - q)
                    * nxi) by (nonlinear_arith)
                    requires
                        i0 as int + (nx - p) as int == nxi * q + base as int,
                        nx as int == nxi,
                ;
                lemma_cong(base as int + t as int, i0 as int - p as int + t as int, 1 - q, nxi);
                lemma_mod_division_less_than_divisor(i0 as int - p as int + t as int, nxi);
                assert(col as int == (i0 as int - p as int + t as int) % nxi);
                assert((j as int) * nxi + (col as int) < nxi * (ny as int)) by (nonlinear_arith)
                    requires
                        (j as int) <= (ny as int) - 1,
                        0 <= (col as int) < nxi,
                        nxi > 0,
                ;
                assert(row[t as int] == j as int * nxi + col as int);
            }
            let cell = j * nx + col;
            let ghost out_pre = out@;
            out.push(cell);
            proof {
                let f = |v: usize| v as int;
                assert(out@ == out_pre.push(cell));
                assert(out@.map_values(f) =~= out_pre.map_values(f).push(cell as int)) by {
                    assert(out@.map_values(f).len() == out_pre.len() + 1);
                    assert forall|m: int| 0 <= m < out@.len() implies out@.map_values(f)[m]
                        == out_pre.map_values(f).push(cell as int)[m] by {
                        assert(out@.map_values(f)[m] == f(out@[m]));
                        if m < out_pre.len() {
                            assert(out@[m] == out_pre[m]);
                            assert(out_pre.map_values(f)[m] == f(out_pre[m]));
                        }
                    }
                }
                assert(row.take(t as int + 1) =~= row.take(t as int).push(row[t as int]));
                assert(out@.map_values(f) =~= window_seq(
                    nxi,
                    i0 as int,
                    j_lo as int,
                    padsi.take(j - j_lo),
                ) + row.take(t as int + 1));
            }
            t += 1;
        }
        proof {
            assert(row.take(count as int) =~= row);
            lemma_window_seq_snoc(nxi, i0 as int, j_lo as int, padsi, j - j_lo);
            assert(padsi[j - j_lo] == p as int);
            assert(out@.map_values(|v: usize| v as int) =~= window_seq(
                nxi,
                i0 as int,
                j_lo as int,
                padsi.take(j - j_lo + 1),
            ));
        }
        j += 1;
    }
    proof {
        assert(padsi.take(j - j_lo) =~= padsi);
        let w = window_seq(nxi, i0 as int, j_lo as int, padsi);
        let outi = out@.map_values(|v: usize| v as int);
        assert forall|k: int| 0 <= k < padsi.len() implies padsi[k] >= 0 by {}
        lemma_window_props(nxi, i0 as int, j_lo as int, padsi);
        // transfer no-duplicates and element bounds from the int view
        assert forall|m1: int, m2: int| 0 <= m1 < m2 < out@.len() implies out@[m1] != out@[m2] by {
            assert(outi[m1] != outi[m2]);
        }
        assert(out@.no_duplicates());
        assert forall|m: int| 0 <= m < out@.len() implies (#[trigger] out@[m]) < grid.nx
            * grid.ny by {
            let e = outi[m];
            assert(j_lo as int <= e / nxi < j_lo as int + padsi.len());
            assert(e == nxi * (e / nxi) + e % nxi);
            assert(e < nxi * ny as int) by (nonlinear_arith)
                requires
                    e == nxi * (e / nxi) + e % nxi,
                    e / nxi <= ny as int - 1,
                    0 <= e % nxi < nxi,
                    nxi > 0,
            ;
        }
        assert forall|m: int| 0 <= m < out@.len() implies {
            let e = (#[trigger] out@[m]) as int;
            let jlo = j_min_of(center as int / nxi, j_pad as int);
            &&& jlo <= e / nxi <= j_max_of(center as int / nxi, j_pad as int, ny as int)
            &&& (circ_dist(e % nxi, center as int % nxi, nxi) <= i_pads@[e / nxi - jlo] || 2
                * i_pads@[e / nxi - jlo] + 1 > nxi)
        } by {
            assert(outi[m] == w[m]);
            assert(padsi[outi[m] / nxi - j_lo as int] == i_pads@[outi[m] / nxi - j_lo as int] as int);
        }
        assert forall|j2: int, i: int|
            #[trigger] in_window(*grid, center as int, j_pad as int, i_pads@, j2, i) implies out@.contains(
            ((j2 * nxi + i) as usize)) by {
            let r = j2 - j_lo as int;
            assert(padsi[r] == i_pads@[r] as int);
            lemma_window_cover(nxi, i0 as int, j_lo as int, padsi, r, i);
            let t = choose|t: int| 0 <= t < w.len() && w[t] == (j_lo as int + r) * nxi + i;
            assert(outi[t] == (j_lo as int + r) * nxi + i);
            assert(0 <= (j2 * nxi + i));
            assert(out@[t] as int == j2 * nxi + i);
            assert(out@[t] == (j2 * nxi + i) as usize);
        }
    }
    out
}

} // verus!
