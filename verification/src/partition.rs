use vstd::prelude::*;

verus! {

use vstd::arithmetic::div_mod::{
    lemma_fundamental_div_mod,
    lemma_fundamental_div_mod_converse_mod,
    lemma_fundamental_div_mod_converse_div,
    lemma_small_mod,
    lemma_mod_division_less_than_divisor,
};
use vstd::set_lib::{lemma_int_range, lemma_len_subset, set_int_range};
use crate::colors::Rgb;

/// Valid grid dimensions for the partitioner: positive, with the cell
/// count representable as a `usize` index.
pub open spec fn valid_dims(nx: int, ny: int) -> bool {
    &&& nx > 0
    &&& ny > 0
    &&& nx * ny <= usize::MAX
}

/// Column to the west of column `x`, wrapping across the antimeridian.
pub open spec fn left_col(x: int, nx: int) -> int {
    if x == 0 {
        nx - 1
    } else {
        x - 1
    }
}

/// Column to the east of column `x`, wrapping across the antimeridian.
pub open spec fn right_col(x: int, nx: int) -> int {
    if x == nx - 1 {
        0
    } else {
        x + 1
    }
}

/// Four-neighbor adjacency of two cells given as linear indices:
/// east/west neighbors wrap modulo `nx`, north/south neighbors do not
/// wrap past the poles.
pub open spec fn adjacent(a: int, b: int, nx: int, ny: int) -> bool {
    let ax = a % nx;
    let ay = a / nx;
    let bx = b % nx;
    let by = b / nx;
    &&& 0 <= a < nx * ny
    &&& 0 <= b < nx * ny
    &&& ((ay == by && (bx == left_col(ax, nx) || bx == right_col(ax, nx))) || (ax == bx && (by == ay
        - 1 || by == ay + 1)))
}

/// A cell that the keep predicate retains.
pub open spec fn kept(keep: Seq<bool>, c: int) -> bool {
    &&& 0 <= c < keep.len()
    &&& keep[c]
}

/// A walk through kept cells, each step moving to an adjacent cell.
pub open spec fn is_path(pth: Seq<int>, keep: Seq<bool>, nx: int, ny: int) -> bool {
    &&& pth.len() > 0
    &&& forall|k: int| 0 <= k < pth.len() ==> kept(keep, #[trigger] pth[k])
    &&& forall|k: int| 0 <= k < pth.len() - 1 ==> adjacent(#[trigger] pth[k], pth[k + 1], nx, ny)
}

/// Two cells joined by a walk through kept cells.
pub open spec fn connected(a: int, b: int, keep: Seq<bool>, nx: int, ny: int) -> bool {
    exists|pth: Seq<int>|
        is_path(pth, keep, nx, ny) && pth.first() == a && pth.last() == b
}

/// A walk through kept cells that also avoids a marked region.
pub open spec fn is_path_avoiding(
    pth: Seq<int>,
    keep: Seq<bool>,
    avoid: Seq<bool>,
    nx: int,
    ny: int,
) -> bool {
    &&& is_path(pth, keep, nx, ny)
    &&& forall|k: int| 0 <= k < pth.len() ==> !avoid[#[trigger] pth[k]]
}

/// Two cells joined by a walk through kept cells that avoids a marked
/// region.
pub open spec fn connected_avoiding(
    a: int,
    b: int,
    keep: Seq<bool>,
    avoid: Seq<bool>,
    nx: int,
    ny: int,
) -> bool {
    exists|pth: Seq<int>|
        is_path_avoiding(pth, keep, avoid, nx, ny) && pth.first() == a && pth.last() == b
}

/// Row and column of a valid linear cell index.
proof fn lemma_cell_coords(c: int, nx: int, ny: int)
    requires
        valid_dims(nx, ny),
        0 <= c < nx * ny,
    ensures
        0 <= c % nx < nx,
        0 <= c / nx < ny,
        c == (c / nx) * nx + c % nx,
{
    lemma_fundamental_div_mod(c, nx);
    lemma_mod_division_less_than_divisor(c, nx);
    assert(0 <= c / nx < ny) by (nonlinear_arith)
        requires
            c == nx * (c / nx) + c % nx,
            0 <= c < nx * ny,
            0 <= c % nx < nx,
            nx > 0,
    ;
}

/// Adjacency is symmetric.
proof fn lemma_adjacent_sym(a: int, b: int, nx: int, ny: int)
    requires
        valid_dims(nx, ny),
        adjacent(a, b, nx, ny),
    ensures
        adjacent(b, a, nx, ny),
{
    lemma_cell_coords(a, nx, ny);
    lemma_cell_coords(b, nx, ny);
}

/// A cell's linear index is recovered from its row and column.
proof fn lemma_cell_of_coords(x: int, y: int, nx: int, ny: int)
    requires
        valid_dims(nx, ny),
        0 <= x < nx,
        0 <= y < ny,
    ensures
        (y * nx + x) % nx == x,
        (y * nx + x) / nx == y,
        0 <= y * nx + x < nx * ny,
{
    lemma_fundamental_div_mod_converse_mod(y * nx + x, nx, y, x);
    lemma_fundamental_div_mod_converse_div(y * nx + x, nx, y, x);
    assert(0 <= y * nx + x < nx * ny) by (nonlinear_arith)
        requires
            0 <= x < nx,
            0 <= y < ny,
            nx > 0,
    ;
}

/// A kept cell is connected to itself, avoiding anything that does not
/// mark it.
proof fn lemma_connected_avoiding_refl(a: int, keep: Seq<bool>, avoid: Seq<bool>, nx: int, ny: int)
    requires
        kept(keep, a),
        !avoid[a],
    ensures
        connected_avoiding(a, a, keep, avoid, nx, ny),
{
    let pth = seq![a];
    assert(is_path_avoiding(pth, keep, avoid, nx, ny));
    assert(pth.first() == a && pth.last() == a);
}

/// Extending an avoiding walk by one adjacent kept unmarked cell.
proof fn lemma_connected_avoiding_step(
    a: int,
    b: int,
    c: int,
    keep: Seq<bool>,
    avoid: Seq<bool>,
    nx: int,
    ny: int,
)
    requires
        connected_avoiding(a, b, keep, avoid, nx, ny),
        adjacent(b, c, nx, ny),
        kept(keep, c),
        !avoid[c],
    ensures
        connected_avoiding(a, c, keep, avoid, nx, ny),
{
    let pth = choose|pth: Seq<int>|
        is_path_avoiding(pth, keep, avoid, nx, ny) && pth.first() == a && pth.last() == b;
    let ext = pth.push(c);
    assert forall|k: int| 0 <= k < ext.len() implies kept(keep, #[trigger] ext[k]) by {
        if k < pth.len() {
            assert(ext[k] == pth[k]);
        }
    }
    assert forall|k: int| 0 <= k < ext.len() - 1 implies adjacent(
        #[trigger] ext[k],
        ext[k + 1],
        nx,
        ny,
    ) by {
        if k < pth.len() - 1 {
            assert(ext[k] == pth[k] && ext[k + 1] == pth[k + 1]);
        } else {
            assert(ext[k] == pth.last() && ext[k + 1] == c);
        }
    }
    assert forall|k: int| 0 <= k < ext.len() implies !avoid[#[trigger] ext[k]] by {
        if k < pth.len() {
            assert(ext[k] == pth[k]);
        }
    }
    assert(is_path_avoiding(ext, keep, avoid, nx, ny));
    assert(ext.first() == a && ext.last() == c);
}

/// An avoiding walk is in particular a walk.
proof fn lemma_connected_avoiding_weaken(
    a: int,
    b: int,
    keep: Seq<bool>,
    avoid: Seq<bool>,
    nx: int,
    ny: int,
)
    requires
        connected_avoiding(a, b, keep, avoid, nx, ny),
    ensures
        connected(a, b, keep, nx, ny),
{
    let pth = choose|pth: Seq<int>|
        is_path_avoiding(pth, keep, avoid, nx, ny) && pth.first() == a && pth.last() == b;
    assert(is_path(pth, keep, nx, ny) && pth.first() == a && pth.last() == b);
}

/// The cells a flood fill has not yet visited.
spec fn unvisited_set(v: Seq<bool>) -> Set<int> {
    Set::new(|c: int| 0 <= c < v.len() && !v[c])
}

/// Number of cells a flood fill has not yet visited; the termination
/// measure of the fill.
pub closed spec fn unvisited_count(v: Seq<bool>) -> nat {
    unvisited_set(v).len()
}

/// The unvisited region is finite and bounded by the grid size.
proof fn lemma_unvisited_finite(v: Seq<bool>)
    ensures
        unvisited_set(v).finite(),
        unvisited_set(v).len() <= v.len(),
{
    lemma_int_range(0, v.len() as int);
    assert(unvisited_set(v).subset_of(set_int_range(0, v.len() as int)));
    lemma_len_subset(unvisited_set(v), set_int_range(0, v.len() as int));
}

/// Marking one unvisited cell visited decreases the measure by one.
proof fn lemma_unvisited_dec(v: Seq<bool>, c: int)
    requires
        0 <= c < v.len(),
        !v[c],
    ensures
        unvisited_count(v.update(c, true)) < unvisited_count(v),
{
    let s = unvisited_set(v);
    let s2 = unvisited_set(v.update(c, true));
    lemma_unvisited_finite(v);
    lemma_unvisited_finite(v.update(c, true));
    assert(s2 =~= s.remove(c));
    assert(s.contains(c));
    assert(s.remove(c).len() == s.len() - 1);
}

/// The grid coordinates adjacent to `(cx, cy)`, in scan order: west,
/// east, then north and south where those rows exist.
pub open spec fn spec_neighbours(cx: int, cy: int, nx: int, ny: int) -> Seq<(int, int)> {
    let base = seq![(left_col(cx, nx), cy), (right_col(cx, nx), cy)];
    let with_up = if cy > 0 {
        base.push((cx, cy - 1))
    } else {
        base
    };
    if cy + 1 < ny {
        with_up.push((cx, cy + 1))
    } else {
        with_up
    }
}

/// The neighbouring coordinates of a cell: east/west wrap around the
/// antimeridian, north/south stop at the poles. Exactly the coordinate
/// pairs adjacent to `(cx, cy)` are returned.
pub fn get_neighbours(c: (usize, usize), shape: (usize, usize)) -> (nbrs: Vec<(usize, usize)>)
    requires
        valid_dims(shape.0 as int, shape.1 as int),
        shape.0 <= usize::MAX / 2,
        c.0 < shape.0,
        c.1 < shape.1,
    ensures
        nbrs@.map_values(|q: (usize, usize)| (q.0 as int, q.1 as int)) == spec_neighbours(
            c.0 as int,
            c.1 as int,
            shape.0 as int,
            shape.1 as int,
        ),
        forall|m: int|
            0 <= m < nbrs@.len() ==> (#[trigger] nbrs@[m]).0 < shape.0 && nbrs@[m].1 < shape.1
                && adjacent(
                c.1 as int * shape.0 as int + c.0 as int,
                nbrs@[m].1 as int * shape.0 as int + nbrs@[m].0 as int,
                shape.0 as int,
                shape.1 as int,
            ),
        forall|b: int|
            #[trigger] adjacent(c.1 as int * shape.0 as int + c.0 as int, b, shape.0 as int, shape.1 as int)
                ==> nbrs@.contains((((b % (shape.0 as int)) as usize), ((b / (shape.0 as int)) as usize))),
{
    let (cx, cy) = c;
    let (nx, ny) = shape;
    // wrap longitudinally
    let lx = (cx + nx - 1) % nx;
    let rx = (cx + 1) % nx;
    proof {
        let nxi = nx as int;
        lemma_fundamental_div_mod(cx as int + nxi - 1, nxi);
        if cx == 0 {
            lemma_small_mod((nxi - 1) as nat, nxi as nat);
        } else {
            lemma_cong(cx as int + nxi - 1, cx as int - 1, 1, nxi);
            lemma_small_mod((cx - 1) as nat, nxi as nat);
        }
        assert(lx as int == left_col(cx as int, nxi));
        if cx + 1 == nx {
            lemma_cong(nxi, 0, 1, nxi);
            lemma_small_mod(0, nxi as nat);
        } else {
            lemma_small_mod((cx + 1) as nat, nxi as nat);
        }
        assert(rx as int == right_col(cx as int, nxi));
    }
    let mut neighbours: Vec<(usize, usize)> = Vec::new();
    neighbours.push((lx, cy));
    neighbours.push((rx, cy));
    if cy > 0 {
        neighbours.push((cx, cy - 1));
    }
    if cy + 1 < ny {
        neighbours.push((cx, cy + 1));
    }
    proof {
        let nxi = nx as int;
        let nyi = ny as int;
        let cxi = cx as int;
        let cyi = cy as int;
        let ci = cyi * nxi + cxi;
        assert(neighbours@.map_values(|q: (usize, usize)| (q.0 as int, q.1 as int)) =~= spec_neighbours(
            cxi,
            cyi,
            nxi,
            nyi,
        ));
        lemma_cell_of_coords(cxi, cyi, nxi, nyi);
        assert forall|m: int|
            0 <= m < neighbours@.len() implies (#[trigger] neighbours@[m]).0 < nx
                && neighbours@[m].1 < ny && adjacent(
                ci,
                neighbours@[m].1 as int * nxi + neighbours@[m].0 as int,
                nxi,
                nyi,
            ) by {
            let q = neighbours@[m];
            lemma_cell_of_coords(q.0 as int, q.1 as int, nxi, nyi);
        }
        assert forall|b: int| adjacent(ci, b, nxi, nyi) implies neighbours@.contains(
            (((b % nxi) as usize), ((b / nxi) as usize))) by {
            lemma_cell_coords(b, nxi, nyi);
            let bx = b % nxi;
            let by = b / nxi;
            if by == cyi && bx == left_col(cxi, nxi) {
                assert(neighbours@[0] == (((bx) as usize), ((by) as usize)));
            } else if by == cyi && bx == right_col(cxi, nxi) {
                assert(neighbours@[1] == (((bx) as usize), ((by) as usize)));
            } else if bx == cxi && by == cyi - 1 {
                assert(cy > 0);
                assert(neighbours@[2] == (((bx) as usize), ((by) as usize)));
            } else {
                assert(bx == cxi && by == cyi + 1);
                assert(cyi + 1 < nyi);
                let m = if cy > 0 {
                    3int
                } else {
                    2int
                };
                assert(neighbours@[m] == (((bx) as usize), ((by) as usize)));
            }
        }
    }
    neighbours
}

/// One flood fill: gathers, in depth-first discovery order from an
/// explicit stack (no recursion), the kept cells reachable from `seed`
/// without stepping on already-visited cells, and marks them visited.
/// The gathered patch starts at the seed, repeats no cell, and is closed
/// under kept, unvisited adjacency.
fn flood_fill(
    keep: &Vec<bool>,
    visited: &mut Vec<bool>,
    seed: usize,
    nx: usize,
    ny: usize,
) -> (patch: Vec<usize>)
    requires
        valid_dims(nx as int, ny as int),
        nx <= usize::MAX / 2,
        keep@.len() == nx * ny,
        old(visited)@.len() == nx * ny,
        seed < nx * ny,
        keep@[seed as int],
        !old(visited)@[seed as int],
    ensures
        final(visited)@.len() == nx * ny,
        forall|c: int|
            0 <= c < nx * ny ==> (final(visited)@[c] <==> old(visited)@[c] || patch@.contains(
                c as usize,
            )),
        patch@.len() > 0,
        patch@[0] == seed,
        patch@.no_duplicates(),
        forall|m: int|
            0 <= m < patch@.len() ==> (#[trigger] patch@[m]) < nx * ny && kept(
                keep@,
                patch@[m] as int,
            ) && !old(visited)@[patch@[m] as int],
        forall|m: int|
            0 <= m < patch@.len() ==> connected_avoiding(
                seed as int,
                (#[trigger] patch@[m]) as int,
                keep@,
                old(visited)@,
                nx as int,
                ny as int,
            ),
        forall|m: int, b: int|
            0 <= m < patch@.len() && #[trigger] adjacent(patch@[m] as int, b, nx as int, ny as int)
                && kept(keep@, b) && !old(visited)@[b] ==> patch@.contains(b as usize),
{
    let total = nx * ny;
    let ghost avoid = old(visited)@;
    let ghost nxi = nx as int;
    let ghost nyi = ny as int;
    let mut patch: Vec<usize> = Vec::new();
    let mut stack: Vec<usize> = Vec::new();
    visited.set(seed, true);
    stack.push(seed);
    proof {
        lemma_connected_avoiding_refl(seed as int, keep@, avoid, nxi, nyi);
        assert(stack@ =~= seq![seed]);
        assert forall|c: int|
            0 <= c < total implies (visited@[c] <==> avoid[c] || patch@.contains(c as usize)
                || stack@.contains(c as usize)) by {
            if stack@.contains(c as usize) {
                let m = choose|m: int| 0 <= m < stack@.len() && stack@[m] == c as usize;
                assert(c == seed);
            }
            if patch@.contains(c as usize) {
                let m = choose|m: int| 0 <= m < patch@.len() && patch@[m] == c as usize;
            }
            if c == seed {
                assert(stack@[0] == seed);
                assert(stack@.contains(c as usize));
            }
        }
    }
    while stack.len() > 0
        invariant
            valid_dims(nxi, nyi),
            nxi == nx as int,
            nyi == ny as int,
            nx <= usize::MAX / 2,
            total == nx * ny,
            keep@.len() == total,
            visited@.len() == total,
            avoid.len() == total,
            seed < total,
            kept(keep@, seed as int),
            !avoid[seed as int],
            forall|m: int| 0 <= m < patch@.len() ==> (#[trigger] patch@[m]) < total,
            forall|m: int| 0 <= m < stack@.len() ==> (#[trigger] stack@[m]) < total,
            forall|c: int|
                0 <= c < total ==> (visited@[c] <==> avoid[c] || patch@.contains(c as usize)
                    || stack@.contains(c as usize)),
            forall|m: int|
                0 <= m < patch@.len() ==> kept(keep@, (#[trigger] patch@[m]) as int)
                    && !avoid[patch@[m] as int] && connected_avoiding(
                    seed as int,
                    patch@[m] as int,
                    keep@,
                    avoid,
                    nxi,
                    nyi,
                ),
            forall|m: int|
                0 <= m < stack@.len() ==> kept(keep@, (#[trigger] stack@[m]) as int)
                    && !avoid[stack@[m] as int] && connected_avoiding(
                    seed as int,
                    stack@[m] as int,
                    keep@,
                    avoid,
                    nxi,
                    nyi,
                ),
            patch@.no_duplicates(),
            stack@.no_duplicates(),
            forall|m1: int, m2: int|
                0 <= m1 < patch@.len() && 0 <= m2 < stack@.len() ==> (#[trigger] patch@[m1]) != (
                #[trigger] stack@[m2]),
            patch@.len() == 0 ==> stack@ == seq![seed],
            patch@.len() > 0 ==> patch@[0] == seed,
            forall|m: int, b: int|
                0 <= m < patch@.len() && #[trigger] adjacent(patch@[m] as int, b, nxi, nyi) && kept(
                    keep@,
                    b,
                ) && !avoid[b] ==> patch@.contains(b as usize) || stack@.contains(b as usize),
        decreases unvisited_count(visited@), stack@.len(),
    {
        let ghost stack_entry = stack@;
        let ghost patch_entry = patch@;
        let ci = stack.pop().unwrap();
        patch.push(ci);
        proof {
            assert(patch@ == patch_entry.push(ci));
            assert(stack@ == stack_entry.subrange(0, stack_entry.len() - 1));
            assert(ci == stack_entry.last());
            assert(stack_entry.contains(ci));
            // membership facts transfer from the stack entry to the patch
            assert forall|c: int|
                0 <= c < total implies (visited@[c] <==> avoid[c] || patch@.contains(c as usize)
                    || stack@.contains(c as usize)) by {
                if patch_entry.contains(c as usize) {
                    let m = choose|m: int|
                        0 <= m < patch_entry.len() && patch_entry[m] == c as usize;
                    assert(patch@[m] == c as usize);
                }
                if stack_entry.contains(c as usize) {
                    let m = choose|m: int|
                        0 <= m < stack_entry.len() && stack_entry[m] == c as usize;
                    if m < stack_entry.len() - 1 {
                        assert(stack@[m] == c as usize);
                    } else {
                        assert(patch@[patch@.len() - 1] == c as usize);
                    }
                }
                if patch@.contains(c as usize) {
                    let m = choose|m: int| 0 <= m < patch@.len() && patch@[m] == c as usize;
                    if m < patch_entry.len() {
                        assert(patch_entry[m] == c as usize);
                    } else {
                        assert(stack_entry.contains(c as usize));
                    }
                }
                if stack@.contains(c as usize) {
                    let m = choose|m: int| 0 <= m < stack@.len() && stack@[m] == c as usize;
                    assert(stack_entry[m] == c as usize);
                }
            }
            if patch_entry.len() == 0 {
                assert(stack_entry == seq![seed]);
                assert(ci == seed);
                assert(patch@[0] == seed);
            }
        }
        let cx = ci % nx;
        let cy = ci / nx;
        proof {
            lemma_cell_coords(ci as int, nxi, nyi);
        }
        let nbrs = get_neighbours((cx, cy), (nx, ny));
        let ghost n0 = unvisited_count(visited@);
        let ghost s0 = stack@.len();
        let mut q: usize = 0;
        while q < nbrs.len()
            invariant
                valid_dims(nxi, nyi),
                nxi == nx as int,
                nyi == ny as int,
                nx <= usize::MAX / 2,
                total == nx * ny,
                keep@.len() == total,
                visited@.len() == total,
                avoid.len() == total,
                seed < total,
                kept(keep@, seed as int),
                !avoid[seed as int],
                0 <= q <= nbrs@.len(),
                patch@.len() > 0,
                patch@.last() == ci,
                patch@[0] == seed,
                ci < total,
                cx == ci % nx,
                cy == ci / nx,
                kept(keep@, ci as int),
                !avoid[ci as int],
                forall|m: int|
                    0 <= m < nbrs@.len() ==> (#[trigger] nbrs@[m]).0 < nx && nbrs@[m].1 < ny
                        && adjacent(
                        ci as int,
                        nbrs@[m].1 as int * nxi + nbrs@[m].0 as int,
                        nxi,
                        nyi,
                    ),
                forall|b: int|
                    #[trigger] adjacent(ci as int, b, nxi, nyi) ==> nbrs@.contains(
                        (((b % nxi) as usize), ((b / nxi) as usize)),
                    ),
                forall|m: int| 0 <= m < patch@.len() ==> (#[trigger] patch@[m]) < total,
                forall|m: int| 0 <= m < stack@.len() ==> (#[trigger] stack@[m]) < total,
                forall|c: int|
                    0 <= c < total ==> (visited@[c] <==> avoid[c] || patch@.contains(c as usize)
                        || stack@.contains(c as usize)),
                forall|m: int|
                    0 <= m < patch@.len() ==> kept(keep@, (#[trigger] patch@[m]) as int)
                        && !avoid[patch@[m] as int] && connected_avoiding(
                        seed as int,
                        patch@[m] as int,
                        keep@,
                        avoid,
                        nxi,
                        nyi,
                    ),
                forall|m: int|
                    0 <= m < stack@.len() ==> kept(keep@, (#[trigger] stack@[m]) as int)
                        && !avoid[stack@[m] as int] && connected_avoiding(
                        seed as int,
                        stack@[m] as int,
                        keep@,
                        avoid,
                        nxi,
                        nyi,
                    ),
                patch@.no_duplicates(),
                stack@.no_duplicates(),
                forall|m1: int, m2: int|
                    0 <= m1 < patch@.len() && 0 <= m2 < stack@.len() ==> (#[trigger] patch@[m1])
                        != (#[trigger] stack@[m2]),
                // closure holds for every patch cell but the newest ...
                forall|m: int, b: int|
                    0 <= m < patch@.len() - 1 && #[trigger] adjacent(patch@[m] as int, b, nxi, nyi)
                        && kept(keep@, b) && !avoid[b] ==> patch@.contains(b as usize)
                        || stack@.contains(b as usize),
                // ... and for the newest, for the neighbours already scanned
                forall|m: int|
                    0 <= m < q && kept(
                        keep@,
                        (#[trigger] nbrs@[m]).1 as int * nxi + nbrs@[m].0 as int,
                    ) && !avoid[nbrs@[m].1 as int * nxi + nbrs@[m].0 as int] ==> patch@.contains(
                        ((nbrs@[m].1 as int * nxi + nbrs@[m].0 as int) as usize),
                    ) || stack@.contains(((nbrs@[m].1 as int * nxi + nbrs@[m].0 as int) as usize)),
                unvisited_count(visited@) <= n0,
                unvisited_count(visited@) == n0 ==> stack@.len() == s0,
            decreases nbrs@.len() - q,
        {
            let pr = nbrs[q];
            let px = pr.0;
            let py = pr.1;
            proof {
                lemma_cell_of_coords(px as int, py as int, nxi, nyi);
                assert((py as int) * nxi + (px as int) < nxi * nyi);
            }
            let ni = py * nx + px;
            if !visited[ni] {
                if keep[ni] {
                    let ghost visited_pre = visited@;
                    let ghost stack_pre = stack@;
                    visited.set(ni, true);
                    stack.push(ni);
                    proof {
                        lemma_unvisited_dec(visited_pre, ni as int);
                        assert(!avoid[ni as int]);
                        lemma_connected_avoiding_step(
                            seed as int,
                            ci as int,
                            ni as int,
                            keep@,
                            avoid,
                            nxi,
                            nyi,
                        );
                        assert(!stack_pre.contains(ni));
                        assert(!patch@.contains(ni));
                        assert(stack@ == stack_pre.push(ni));
                        assert(stack@[stack@.len() - 1] == ni);
                        assert forall|c: int|
                            0 <= c < total implies (visited@[c] <==> avoid[c] || patch@.contains(
                                c as usize,
                            ) || stack@.contains(c as usize)) by {
                            assert(visited@ == visited_pre.update(ni as int, true));
                            if c == ni as int {
                                assert(visited@[c]);
                                assert(stack@.contains(c as usize));
                            } else {
                                assert(visited@[c] == visited_pre[c]);
                                if stack@.contains(c as usize) {
                                    let m = choose|m: int|
                                        0 <= m < stack@.len() && stack@[m] == c as usize;
                                    if m < stack_pre.len() {
                                        assert(stack_pre[m] == c as usize);
                                        assert(stack_pre.contains(c as usize));
                                    } else {
                                        assert(c == ni as int);
                                    }
                                }
                                if stack_pre.contains(c as usize) {
                                    let m = choose|m: int|
                                        0 <= m < stack_pre.len() && stack_pre[m] == c as usize;
                                    assert(stack@[m] == c as usize);
                                    assert(stack@.contains(c as usize));
                                }
                            }
                        }
                    }
                }
            }
            q += 1;
            proof {
                // the neighbour just scanned is now accounted for
                let b = (py as int) * nxi + px as int;
                if kept(keep@, b) && !avoid[b] {
                    if !visited@[b as int] {
                        assert(false);
                    }
                    assert(patch@.contains(b as usize) || stack@.contains(b as usize));
                }
            }
        }
        proof {
            // the newest patch cell is now closed as well
            assert forall|m: int, b: int|
                0 <= m < patch@.len() && #[trigger] adjacent(patch@[m] as int, b, nxi, nyi) && kept(
                    keep@,
                    b,
                ) && !avoid[b] implies patch@.contains(b as usize) || stack@.contains(
                b as usize,
            ) by {
                if m == patch@.len() - 1 {
                    lemma_cell_coords(b, nxi, nyi);
                    assert(nbrs@.contains((((b % nxi) as usize), ((b / nxi) as usize))));
                    let m2 = choose|m2: int|
                        0 <= m2 < nbrs@.len() && nbrs@[m2] == (((b % nxi) as usize), ((b
                            / nxi) as usize));
                    assert(nbrs@[m2].1 as int * nxi + nbrs@[m2].0 as int == b);
                }
            }
        }
    }
    proof {
        assert(stack@.len() == 0);
        assert forall|c: int| 0 <= c < total implies !(#[trigger] stack@.contains(c as usize)) by {
            if stack@.contains(c as usize) {
                let m = choose|m: int| 0 <= m < stack@.len() && stack@[m] == c as usize;
            }
        }
        assert(patch@.len() > 0) by {
            if patch@.len() == 0 {
                assert(stack@ == seq![seed]);
            }
        }
        assert forall|m: int, b: int|
            0 <= m < patch@.len() && #[trigger] adjacent(patch@[m] as int, b, nxi, nyi) && kept(
                keep@,
                b,
            ) && !avoid[b] implies patch@.contains(b as usize) by {
            assert(!stack@.contains(b as usize));
        }
    }
    patch
}

/// One discovered component: nonempty, free of repeats, entirely kept,
/// connected to its first cell, closed under kept adjacency, and led by
/// its smallest cell.
pub open spec fn patch_ok(patch: Seq<usize>, keep: Seq<bool>, nx: int, ny: int) -> bool {
    &&& patch.len() > 0
    &&& patch.no_duplicates()
    &&& forall|m: int| 0 <= m < patch.len() ==> kept(keep, (#[trigger] patch[m]) as int)
    &&& forall|m: int|
        0 <= m < patch.len() ==> connected(
            patch[0] as int,
            (#[trigger] patch[m]) as int,
            keep,
            nx,
            ny,
        )
    &&& forall|m: int, b: int|
        0 <= m < patch.len() && #[trigger] adjacent(patch[m] as int, b, nx, ny) && kept(keep, b)
            ==> patch.contains(b as usize)
    &&& forall|m: int| 0 <= m < patch.len() ==> patch[0] <= #[trigger] patch[m]
}

/// The full output of the partitioner: each entry a maximal connected
/// component of kept cells, the entries pairwise disjoint, together
/// covering every kept cell, and ordered by their leading (smallest)
/// cell — the row-major discovery order.
pub open spec fn is_partition(ps: Seq<Seq<usize>>, keep: Seq<bool>, nx: int, ny: int) -> bool {
    &&& forall|k: int| 0 <= k < ps.len() ==> patch_ok(#[trigger] ps[k], keep, nx, ny)
    &&& forall|k1: int, k2: int, c: usize|
        0 <= k1 < k2 < ps.len() && #[trigger] ps[k1].contains(c) ==> !(#[trigger] ps[k2].contains(
            c,
        ))
    &&& forall|c: int|
        kept(keep, c) ==> exists|k: int| 0 <= k < ps.len() && (#[trigger] ps[k]).contains(c as usize)
    &&& forall|k1: int, k2: int|
        #![trigger ps[k1][0], ps[k2][0]]
        0 <= k1 < k2 < ps.len() ==> ps[k1][0] < ps[k2][0]
}

/// A vector of `n` copies of one value.
fn filled<T: Copy>(n: usize, val: T) -> (v: Vec<T>)
    ensures
        v@.len() == n,
        forall|i: int| 0 <= i < n ==> v@[i] == val,
{
    let mut v: Vec<T> = Vec::new();
    let mut i: usize = 0;
    while i < n
        invariant
            i <= n,
            v@.len() == i,
            forall|k: int| 0 <= k < i ==> v@[k] == val,
        decreases n - i,
    {
        v.push(val);
        i += 1;
    }
    v
}

/// Partition the kept cells of a `shape.0` x `shape.1` grid into maximal
/// connected components under four-neighbor adjacency with longitude
/// wraparound. An outer row-major scan seeds an iterative flood fill at
/// each yet-unvisited kept cell, so components come out ordered by their
/// smallest cell, each listed in depth-first discovery order starting at
/// that cell.
pub fn partition_crust(keep: &Vec<bool>, shape: (usize, usize)) -> (patches: Vec<Vec<usize>>)
    requires
        valid_dims(shape.0 as int, shape.1 as int),
        shape.0 <= usize::MAX / 2,
        keep@.len() == shape.0 * shape.1,
    ensures
        is_partition(
            patches@.map_values(|p: Vec<usize>| p@),
            keep@,
            shape.0 as int,
            shape.1 as int,
        ),
{
    let (nx, ny) = shape;
    let ghost nxi = nx as int;
    let ghost nyi = ny as int;
    let total = nx * ny;
    let mut visited = filled(total, false);
    let mut patches: Vec<Vec<usize>> = Vec::new();
    let mut s: usize = 0;
    while s < total
        invariant
            valid_dims(nxi, nyi),
            nxi == nx as int,
            nyi == ny as int,
            nx <= usize::MAX / 2,
            total == nx * ny,
            keep@.len() == total,
            visited@.len() == total,
            0 <= s <= total,
            forall|k: int|
                0 <= k < patches@.len() ==> patch_ok((#[trigger] patches@[k])@, keep@, nxi, nyi),
            forall|k1: int, k2: int, c: usize|
                0 <= k1 < k2 < patches@.len() && #[trigger] patches@[k1]@.contains(c) ==> !(
                #[trigger] patches@[k2]@.contains(c)),
            forall|c: int|
                0 <= c < total ==> ((#[trigger] visited@[c]) <==> exists|k: int|
                    0 <= k < patches@.len() && (#[trigger] patches@[k])@.contains(c as usize)),
            forall|c: int| 0 <= c < s && kept(keep@, c) ==> visited@[c],
            forall|k1: int, k2: int|
                #![trigger patches@[k1]@[0], patches@[k2]@[0]]
                0 <= k1 < k2 < patches@.len() ==> patches@[k1]@[0] < patches@[k2]@[0],
            forall|k: int| 0 <= k < patches@.len() ==> (#[trigger] patches@[k])@[0] < s,
        decreases total - s,
    {
        if !visited[s] && keep[s] {
            let ghost visited_pre = visited@;
            let ghost patches_pre = patches@;
            let patch = flood_fill(keep, &mut visited, s, nx, ny);
            proof {
                let pv = patch@;
                // the new patch is a maximal connected component
                assert forall|m: int| 0 <= m < pv.len() implies connected(
                    pv[0] as int,
                    (#[trigger] pv[m]) as int,
                    keep@,
                    nxi,
                    nyi,
                ) by {
                    lemma_connected_avoiding_weaken(
                        s as int,
                        pv[m] as int,
                        keep@,
                        visited_pre,
                        nxi,
                        nyi,
                    );
                }
                assert forall|m: int, b: int|
                    0 <= m < pv.len() && #[trigger] adjacent(pv[m] as int, b, nxi, nyi) && kept(
                        keep@,
                        b,
                    ) implies pv.contains(b as usize) by {
                    if visited_pre[b] {
                        // b already lies in an earlier component, whose closure
                        // would then swallow this patch's cell: contradiction
                        let k = choose|k: int|
                            0 <= k < patches_pre.len() && (#[trigger] patches_pre[k])@.contains(
                                b as usize,
                            );
                        let mb = choose|mb: int|
                            0 <= mb < patches_pre[k]@.len() && patches_pre[k]@[mb] == b as usize;
                        lemma_adjacent_sym(pv[m] as int, b, nxi, nyi);
                        assert(patches_pre[k]@[mb] as int == b);
                        assert(adjacent(patches_pre[k]@[mb] as int, pv[m] as int, nxi, nyi));
                        assert(patches_pre[k]@.contains(pv[m]));
                        assert(visited_pre[pv[m] as int]);
                        assert(false);
                    }
                }
                assert forall|m: int| 0 <= m < pv.len() implies pv[0] <= #[trigger] pv[m] by {
                    if pv[m] < s {
                        assert(kept(keep@, pv[m] as int));
                        assert(visited_pre[pv[m] as int]);
                        assert(false);
                    }
                }
                assert(patch_ok(pv, keep@, nxi, nyi));
            }
            patches.push(patch);
            proof {
                let pv = patches@[patches@.len() - 1]@;
                assert(patches@ == patches_pre.push(patches@[patches@.len() - 1]));
                // earlier components lie inside the previously visited region
                assert forall|k1: int, k2: int, c: usize|
                    0 <= k1 < k2 < patches@.len() && #[trigger] patches@[k1]@.contains(c) implies !(
                    #[trigger] patches@[k2]@.contains(c)) by {
                    if k2 < patches@.len() - 1 {
                        assert(patches@[k1] == patches_pre[k1]);
                        assert(patches@[k2] == patches_pre[k2]);
                    } else {
                        assert(patches@[k1] == patches_pre[k1]);
                        assert(c < total) by {
                            let mm = choose|mm: int|
                                0 <= mm < patches_pre[k1]@.len() && patches_pre[k1]@[mm] == c;
                            assert(kept(keep@, patches_pre[k1]@[mm] as int));
                        }
                        assert(visited_pre[c as int]);
                        if patches@[k2]@.contains(c) {
                            assert(!visited_pre[c as int]);
                        }
                    }
                }
                assert forall|c: int|
                    0 <= c < total implies ((#[trigger] visited@[c]) <==> exists|k: int|
                        0 <= k < patches@.len() && (#[trigger] patches@[k])@.contains(
                            c as usize,
                        )) by {
                    if visited@[c] {
                        if visited_pre[c] {
                            let k = choose|k: int|
                                0 <= k < patches_pre.len() && (#[trigger] patches_pre[k])@.contains(
                                    c as usize,
                                );
                            assert(patches@[k]@.contains(c as usize));
                        } else {
                            assert(pv.contains(c as usize));
                            assert(patches@[patches@.len() - 1]@.contains(c as usize));
                        }
                    }
                    if exists|k: int|
                        0 <= k < patches@.len() && (#[trigger] patches@[k])@.contains(c as usize) {
                        let k = choose|k: int|
                            0 <= k < patches@.len() && (#[trigger] patches@[k])@.contains(
                                c as usize,
                            );
                        if k < patches@.len() - 1 {
                            assert(patches_pre[k]@.contains(c as usize));
                            assert(visited_pre[c]);
                        } else {
                            assert(pv.contains(c as usize));
                        }
                    }
                }
                assert forall|c: int| 0 <= c < s + 1 && kept(keep@, c) implies visited@[c] by {
                    if c < s {
                        assert(visited_pre[c]);
                    } else {
                        assert(pv[0] == s);
                        assert(pv.contains(s));
                    }
                }
                assert forall|k1: int, k2: int|
                    #![trigger patches@[k1]@[0], patches@[k2]@[0]]
                    0 <= k1 < k2 < patches@.len() implies patches@[k1]@[0] < patches@[k2]@[0] by {
                    if k2 == patches@.len() - 1 {
                        assert(patches@[k1] == patches_pre[k1]);
                        assert(patches_pre[k1]@[0] < s);
                        assert(pv[0] == s);
                    } else {
                        assert(patches@[k1] == patches_pre[k1]);
                        assert(patches@[k2] == patches_pre[k2]);
                    }
                }
            }
        }
        s += 1;
    }
    proof {
        let ps = patches@.map_values(|p: Vec<usize>| p@);
        assert(ps.len() == patches@.len());
        assert forall|k: int| 0 <= k < ps.len() implies patch_ok(#[trigger] ps[k], keep@, nxi, nyi) by {
            assert(ps[k] == patches@[k]@);
        }
        assert forall|k1: int, k2: int, c: usize|
            0 <= k1 < k2 < ps.len() && #[trigger] ps[k1].contains(c) implies !(
            #[trigger] ps[k2].contains(c)) by {
            assert(ps[k1] == patches@[k1]@);
            assert(ps[k2] == patches@[k2]@);
        }
        assert forall|c: int| kept(keep@, c) implies exists|k: int|
            0 <= k < ps.len() && (#[trigger] ps[k]).contains(c as usize) by {
            assert(0 <= c < total);
            assert(visited@[c]);
            let k = choose|k: int|
                0 <= k < patches@.len() && (#[trigger] patches@[k])@.contains(c as usize);
            assert(ps[k] == patches@[k]@);
            assert(ps[k].contains(c as usize));
        }
        assert forall|k1: int, k2: int|
            #![trigger ps[k1][0], ps[k2][0]]
            0 <= k1 < k2 < ps.len() implies ps[k1][0] < ps[k2][0] by {
            assert(ps[k1] == patches@[k1]@);
            assert(ps[k2] == patches@[k2]@);
            assert(patches@[k1]@[0] < patches@[k2]@[0]);
        }
    }
    patches
}

/// Two integers that differ by a multiple of `n` have the same remainder.
proof fn lemma_cong(a: int, b: int, k: int, n: int)
    requires
        n > 0,
        a == b + k * n,
    ensures
        a % n == b % n,
{
    lemma_fundamental_div_mod(b, n);
    lemma_mod_division_less_than_divisor(b, n);
    let q = b / n;
    let r = b % n;
    assert(a == (q + k) * n + r) by (nonlinear_arith)
        requires
            b == n * q + r,
            a == b + k * n,
    ;
    lemma_fundamental_div_mod_converse_mod(a, n, q + k, r);
}

/// Turn component lists into a flat label map: cells of component `k`
/// get label `k`, every other cell gets the reserved label
/// `patches.len()`, one past the last component id.
pub fn label_partitions(patches: &Vec<Vec<usize>>, total_len: usize) -> (labels: Vec<usize>)
    requires
        forall|k: int, m: int|
            0 <= k < patches@.len() && 0 <= m < (#[trigger] patches@[k])@.len() ==> (#[trigger] patches@[k]@[m])
                < total_len,
        forall|k1: int, k2: int, c: usize|
            0 <= k1 < k2 < patches@.len() && #[trigger] patches@[k1]@.contains(c) ==> !(
            #[trigger] patches@[k2]@.contains(c)),
    ensures
        labels@.len() == total_len,
        forall|k: int, m: int|
            0 <= k < patches@.len() && 0 <= m < (#[trigger] patches@[k])@.len() ==> labels@[(
            #[trigger] patches@[k]@[m]) as int] == k,
        forall|c: int|
            0 <= c < total_len && (forall|k: int|
                0 <= k < patches@.len() ==> !(#[trigger] patches@[k])@.contains(c as usize))
                ==> labels@[c] == patches@.len(),
        forall|c: int| 0 <= c < total_len ==> (#[trigger] labels@[c]) <= patches@.len(),
{
    let null_partition = patches.len();
    let mut labels = filled(total_len, null_partition);
    let mut k: usize = 0;
    while k < patches.len()
        invariant
            labels@.len() == total_len,
            null_partition == patches@.len(),
            0 <= k <= patches@.len(),
            forall|k2: int, m2: int|
                0 <= k2 < patches@.len() && 0 <= m2 < (#[trigger] patches@[k2])@.len() ==> (
                #[trigger] patches@[k2]@[m2]) < total_len,
            forall|k1: int, k2: int, c: usize|
                0 <= k1 < k2 < patches@.len() && #[trigger] patches@[k1]@.contains(c) ==> !(
                #[trigger] patches@[k2]@.contains(c)),
            forall|k2: int, m2: int|
                0 <= k2 < k && 0 <= m2 < (#[trigger] patches@[k2])@.len() ==> labels@[(
                #[trigger] patches@[k2]@[m2]) as int] == k2,
            forall|c: int|
                0 <= c < total_len && (#[trigger] labels@[c]) != patches@.len() ==> exists|
                    k2: int,
                    m2: int,
                |
                    0 <= k2 < k && 0 <= m2 < patches@[k2]@.len() && #[trigger] patches@[k2]@[m2]
                        == c as usize,
        decreases patches@.len() - k,
    {
        let patch = &patches[k];
        let mut m: usize = 0;
        while m < patch.len()
            invariant
                labels@.len() == total_len,
                null_partition == patches@.len(),
                0 <= k < patches@.len(),
                patch == patches@[k as int],
                0 <= m <= patch@.len(),
                forall|k2: int, m2: int|
                    0 <= k2 < patches@.len() && 0 <= m2 < (#[trigger] patches@[k2])@.len() ==> (
                    #[trigger] patches@[k2]@[m2]) < total_len,
                forall|k1: int, k2: int, c: usize|
                    0 <= k1 < k2 < patches@.len() && #[trigger] patches@[k1]@.contains(c) ==> !(
                    #[trigger] patches@[k2]@.contains(c)),
                forall|k2: int, m2: int|
                    0 <= k2 < k && 0 <= m2 < (#[trigger] patches@[k2])@.len() ==> labels@[(
                    #[trigger] patches@[k2]@[m2]) as int] == k2,
                forall|m2: int|
                    0 <= m2 < m ==> labels@[(#[trigger] patch@[m2]) as int] == k as int,
                forall|c: int|
                    0 <= c < total_len && (#[trigger] labels@[c]) != patches@.len() ==> (exists|
                        k2: int,
                        m2: int,
                    |
                        0 <= k2 < k && 0 <= m2 < patches@[k2]@.len()
                            && #[trigger] patches@[k2]@[m2] == c as usize) || (exists|m2: int|
                        0 <= m2 < m && (#[trigger] patch@[m2]) == c as usize),
            decreases patch@.len() - m,
        {
            let c = patch[m];
            let ghost labels_pre = labels@;
            labels.set(c, k);
            proof {
                assert(labels@ == labels_pre.update(c as int, k));
                // an earlier component's cells keep their labels: they
                // cannot share the cell just written
                assert forall|k2: int, m2: int|
                    0 <= k2 < k && 0 <= m2 < (#[trigger] patches@[k2])@.len() implies labels@[(
                    #[trigger] patches@[k2]@[m2]) as int] == k2 by {
                    if patches@[k2]@[m2] == c {
                        assert(patches@[k2]@.contains(c));
                        assert(patch@[m as int] == c);
                        assert(patches@[k as int]@.contains(c));
                        assert(false);
                    }
                }
            }
            m += 1;
        }
        k += 1;
        proof {
            assert forall|c: int|
                0 <= c < total_len && (#[trigger] labels@[c]) != patches@.len() implies exists|
                    k2: int,
                    m2: int,
                |
                    0 <= k2 < k && 0 <= m2 < patches@[k2]@.len() && #[trigger] patches@[k2]@[m2]
                        == c as usize by {
                if exists|m2: int| 0 <= m2 < patch@.len() && (#[trigger] patch@[m2]) == c as usize {
                    let m2 = choose|m2: int|
                        0 <= m2 < patch@.len() && (#[trigger] patch@[m2]) == c as usize;
                    assert(patches@[k - 1]@[m2] == c as usize);
                }
            }
        }
    }
    proof {
        assert forall|c: int|
            0 <= c < total_len && (forall|k2: int|
                0 <= k2 < patches@.len() ==> !(#[trigger] patches@[k2])@.contains(c as usize))
                implies labels@[c] == patches@.len() by {
            if labels@[c] != patches@.len() {
                let (k2, m2) = choose|k2: int, m2: int|
                    0 <= k2 < patches@.len() && 0 <= m2 < patches@[k2]@.len()
                        && #[trigger] patches@[k2]@[m2] == c as usize;
                assert(patches@[k2]@.contains(c as usize));
            }
        }
        assert forall|c: int| 0 <= c < total_len implies (#[trigger] labels@[c])
            <= patches@.len() by {
            if labels@[c] != patches@.len() {
                let (k2, m2) = choose|k2: int, m2: int|
                    0 <= k2 < patches@.len() && 0 <= m2 < patches@[k2]@.len()
                        && #[trigger] patches@[k2]@[m2] == c as usize;
                assert(labels@[patches@[k2]@[m2] as int] == k2);
            }
        }
    }
    labels
}

/// Connectivity is symmetric: reverse the walk.
proof fn lemma_connected_sym(a: int, b: int, keep: Seq<bool>, nx: int, ny: int)
    requires
        valid_dims(nx, ny),
        connected(a, b, keep, nx, ny),
    ensures
        connected(b, a, keep, nx, ny),
{
    let pth = choose|pth: Seq<int>|
        is_path(pth, keep, nx, ny) && pth.first() == a && pth.last() == b;
    let n = pth.len();
    let rev = Seq::new(n, |k: int| pth[n - 1 - k]);
    assert forall|k: int| 0 <= k < rev.len() implies kept(keep, #[trigger] rev[k]) by {
        assert(rev[k] == pth[n - 1 - k]);
    }
    assert forall|k: int| 0 <= k < rev.len() - 1 implies adjacent(
        #[trigger] rev[k],
        rev[k + 1],
        nx,
        ny,
    ) by {
        assert(rev[k] == pth[n - 1 - k]);
        assert(rev[k + 1] == pth[n - 2 - k]);
        assert(adjacent(pth[n - 2 - k], pth[n - 1 - k], nx, ny));
        lemma_adjacent_sym(pth[n - 2 - k], pth[n - 1 - k], nx, ny);
    }
    assert(is_path(rev, keep, nx, ny));
    assert(rev.first() == b && rev.last() == a);
}

/// Connectivity is transitive: join the walks.
proof fn lemma_connected_trans(a: int, b: int, c: int, keep: Seq<bool>, nx: int, ny: int)
    requires
        connected(a, b, keep, nx, ny),
        connected(b, c, keep, nx, ny),
    ensures
        connected(a, c, keep, nx, ny),
{
    let p1 = choose|pth: Seq<int>|
        is_path(pth, keep, nx, ny) && pth.first() == a && pth.last() == b;
    let p2 = choose|pth: Seq<int>|
        is_path(pth, keep, nx, ny) && pth.first() == b && pth.last() == c;
    let joined = p1 + p2.drop_first();
    assert forall|k: int| 0 <= k < joined.len() implies kept(keep, #[trigger] joined[k]) by {
        if k < p1.len() {
            assert(joined[k] == p1[k]);
        } else {
            assert(joined[k] == p2[k - p1.len() + 1]);
        }
    }
    assert forall|k: int| 0 <= k < joined.len() - 1 implies adjacent(
        #[trigger] joined[k],
        joined[k + 1],
        nx,
        ny,
    ) by {
        if k < p1.len() - 1 {
            assert(joined[k] == p1[k] && joined[k + 1] == p1[k + 1]);
        } else if k == p1.len() - 1 {
            assert(joined[k] == p1.last());
            if p2.len() > 1 {
                assert(joined[k + 1] == p2[1]);
                assert(adjacent(p2[0], p2[1], nx, ny));
            }
        } else {
            assert(joined[k] == p2[k - p1.len() + 1]);
            assert(joined[k + 1] == p2[k - p1.len() + 2]);
            assert(adjacent(p2[k - p1.len() + 1], p2[k - p1.len() + 2], nx, ny));
        }
    }
    assert(is_path(joined, keep, nx, ny));
    assert(joined.first() == a);
    assert(joined.last() == c) by {
        if p2.len() == 1 {
            assert(joined.last() == p1.last());
        } else {
            assert(joined.last() == p2.last());
        }
    }
}

/// A walk that starts inside a closed component ends inside it.
proof fn lemma_closed_reach(
    patch: Seq<usize>,
    pth: Seq<int>,
    keep: Seq<bool>,
    nx: int,
    ny: int,
)
    requires
        keep.len() <= usize::MAX,
        patch_ok(patch, keep, nx, ny),
        is_path(pth, keep, nx, ny),
        patch.contains(pth.first() as usize),
    ensures
        patch.contains(pth.last() as usize),
    decreases pth.len(),
{
    if pth.len() == 1 {
    } else {
        assert(adjacent(pth[0], pth[1], nx, ny));
        assert(kept(keep, pth[1]));
        assert(kept(keep, pth[0]));
        assert(0 <= pth[0] <= usize::MAX);
        let m = choose|m: int| 0 <= m < patch.len() && patch[m] == pth.first() as usize;
        assert(patch[m] as int == pth[0]);
        assert(adjacent(patch[m] as int, pth[1], nx, ny));
        assert(patch.contains(pth[1] as usize));
        let tail = pth.drop_first();
        assert forall|k: int| 0 <= k < tail.len() implies kept(keep, #[trigger] tail[k]) by {
            assert(tail[k] == pth[k + 1]);
        }
        assert forall|k: int| 0 <= k < tail.len() - 1 implies adjacent(
            #[trigger] tail[k],
            tail[k + 1],
            nx,
            ny,
        ) by {
            assert(tail[k] == pth[k + 1] && tail[k + 1] == pth[k + 2]);
            assert(adjacent(pth[k + 1], pth[k + 2], nx, ny));
        }
        assert(is_path(tail, keep, nx, ny));
        assert(tail.first() == pth[1]);
        assert(tail.last() == pth.last());
        lemma_closed_reach(patch, tail, keep, nx, ny);
    }
}

/// Two maximal connected components sharing one cell have the same
/// membership.
proof fn lemma_component_membership_eq(
    p1: Seq<usize>,
    p2: Seq<usize>,
    c: usize,
    keep: Seq<bool>,
    nx: int,
    ny: int,
)
    requires
        valid_dims(nx, ny),
        keep.len() <= usize::MAX,
        patch_ok(p1, keep, nx, ny),
        patch_ok(p2, keep, nx, ny),
        p1.contains(c),
        p2.contains(c),
    ensures
        forall|d: usize| p1.contains(d) <==> p2.contains(d),
{
    assert forall|d: usize| #[trigger] p1.contains(d) implies p2.contains(d) by {
        lemma_component_member_transfer(p1, p2, c, d, keep, nx, ny);
    }
    assert forall|d: usize| #[trigger] p2.contains(d) implies p1.contains(d) by {
        lemma_component_member_transfer(p2, p1, c, d, keep, nx, ny);
    }
}

/// A member of one maximal component lies in any other maximal component
/// that shares a cell with it.
proof fn lemma_component_member_transfer(
    p1: Seq<usize>,
    p2: Seq<usize>,
    c: usize,
    d: usize,
    keep: Seq<bool>,
    nx: int,
    ny: int,
)
    requires
        valid_dims(nx, ny),
        patch_ok(p1, keep, nx, ny),
        patch_ok(p2, keep, nx, ny),
        keep.len() <= usize::MAX,
        p1.contains(c),
        p2.contains(c),
        p1.contains(d),
    ensures
        p2.contains(d),
{
    let mc = choose|m: int| 0 <= m < p1.len() && p1[m] == c;
    let md = choose|m: int| 0 <= m < p1.len() && p1[m] == d;
    assert(connected(p1[0] as int, c as int, keep, nx, ny));
    assert(connected(p1[0] as int, d as int, keep, nx, ny));
    lemma_connected_sym(p1[0] as int, c as int, keep, nx, ny);
    lemma_connected_trans(c as int, p1[0] as int, d as int, keep, nx, ny);
    let pth = choose|pth: Seq<int>|
        is_path(pth, keep, nx, ny) && pth.first() == c as int && pth.last() == d as int;
    assert(pth.first() as usize == c);
    lemma_closed_reach(p2, pth, keep, nx, ny);
    assert(pth.last() as usize == d) by {
        assert(kept(keep, pth.last()));
    }
}

/// Inductive step for partition uniqueness: when the components before
/// `k` agree in membership, so does component `k`.
proof fn lemma_partition_step_eq(
    ps1: Seq<Seq<usize>>,
    ps2: Seq<Seq<usize>>,
    keep: Seq<bool>,
    nx: int,
    ny: int,
    k: int,
)
    requires
        valid_dims(nx, ny),
        keep.len() == nx * ny,
        is_partition(ps1, keep, nx, ny),
        is_partition(ps2, keep, nx, ny),
        0 <= k < ps1.len(),
        k < ps2.len(),
        forall|j: int, d: usize|
            0 <= j < k ==> ((#[trigger] ps1[j].contains(d)) <==> (#[trigger] ps2[j].contains(d))),
    ensures
        forall|d: usize| (#[trigger] ps1[k].contains(d)) <==> ps2[k].contains(d),
{
    let seed1 = ps1[k][0];
    assert(ps1[k].contains(seed1));
    assert(kept(keep, seed1 as int));
    let k2 = choose|k2: int| 0 <= k2 < ps2.len() && (#[trigger] ps2[k2]).contains(seed1);
    if k2 < k {
        // by the matching prefix, the seed would lie in an earlier
        // component on both sides, contradicting disjointness
        assert(ps1[k2].contains(seed1));
        assert(false);
    }
    if k2 > k {
        let seed2 = ps2[k][0];
        assert(ps2[k].contains(seed2));
        assert(kept(keep, seed2 as int));
        let k1 = choose|k1: int| 0 <= k1 < ps1.len() && (#[trigger] ps1[k1]).contains(seed2);
        if k1 < k {
            assert(ps2[k1].contains(seed2));
            assert(false);
        }
        // the seeds lead their components and components are ordered
        // by their seeds, which yields a strict cycle
        assert(ps2[k2][0] <= seed1);
        assert(ps2[k][0] < ps2[k2][0]);
        assert(seed2 < seed1);
        assert(ps1[k1][0] <= seed2);
        if k1 > k {
            assert(ps1[k][0] < ps1[k1][0]);
            assert(seed1 < seed2);
        } else {
            assert(k1 == k);
            assert(seed1 <= seed2);
        }
        assert(false);
    }
    assert(k2 == k);
    lemma_component_membership_eq(ps1[k], ps2[k], seed1, keep, nx, ny);
    assert forall|d: usize| (#[trigger] ps1[k].contains(d)) <==> ps2[k].contains(d) by {}
}

/// Matching prefixes of two partitions of the same kept region: the
/// first `k` components agree in membership, component by component.
proof fn lemma_partition_prefix_eq(
    ps1: Seq<Seq<usize>>,
    ps2: Seq<Seq<usize>>,
    keep: Seq<bool>,
    nx: int,
    ny: int,
    k: int,
)
    requires
        valid_dims(nx, ny),
        keep.len() == nx * ny,
        is_partition(ps1, keep, nx, ny),
        is_partition(ps2, keep, nx, ny),
        0 <= k <= ps1.len(),
        k <= ps2.len(),
    ensures
        forall|j: int, d: usize|
            0 <= j < k ==> ((#[trigger] ps1[j].contains(d)) <==> (#[trigger] ps2[j].contains(d))),
    decreases k,
{
    if k > 0 {
        lemma_partition_prefix_eq(ps1, ps2, keep, nx, ny, k - 1);
        lemma_partition_step_eq(ps1, ps2, keep, nx, ny, k - 1);
        assert forall|j: int, d: usize| 0 <= j < k implies ((#[trigger] ps1[j].contains(d)) <==> (
        #[trigger] ps2[j].contains(d))) by {
            if j == k - 1 {
                assert(ps1[j].contains(d) <==> ps2[j].contains(d));
            }
        }
    }
}

/// The partition of a kept region is unique: any two outputs admitted by
/// `is_partition` for the same keep mask and grid have the same number
/// of components, and component `k` of one has exactly the cells of
/// component `k` of the other. With `partition_crust`'s postcondition
/// this says that repeated runs on the same field and predicate produce
/// identical component membership and identical id assignment.
#[verifier::rlimit(60)]
pub proof fn lemma_partition_deterministic(
    ps1: Seq<Seq<usize>>,
    ps2: Seq<Seq<usize>>,
    keep: Seq<bool>,
    nx: int,
    ny: int,
)
    requires
        valid_dims(nx, ny),
        keep.len() == nx * ny,
        is_partition(ps1, keep, nx, ny),
        is_partition(ps2, keep, nx, ny),
    ensures
        ps1.len() == ps2.len(),
        forall|k: int, d: usize|
            0 <= k < ps1.len() ==> ((#[trigger] ps1[k].contains(d)) <==> (#[trigger] ps2[k].contains(
                d,
            ))),
{
    if ps1.len() < ps2.len() {
        lemma_partition_prefix_eq(ps1, ps2, keep, nx, ny, ps1.len() as int);
        let extra = ps2[ps1.len() as int];
        let s2 = extra[0];
        assert(extra.contains(s2));
        assert(kept(keep, s2 as int));
        let k1 = choose|k1: int| 0 <= k1 < ps1.len() && (#[trigger] ps1[k1]).contains(s2);
        assert(ps2[k1].contains(s2));
        assert(false);
    }
    if ps2.len() < ps1.len() {
        lemma_partition_prefix_eq(ps1, ps2, keep, nx, ny, ps2.len() as int);
        let extra = ps1[ps2.len() as int];
        let s1 = extra[0];
        assert(extra.contains(s1));
        assert(kept(keep, s1 as int));
        let k2 = choose|k2: int| 0 <= k2 < ps2.len() && (#[trigger] ps2[k2]).contains(s1);
        assert(ps1[k2].contains(s1));
        assert(false);
    }
    lemma_partition_prefix_eq(ps1, ps2, keep, nx, ny, ps1.len() as int);
}

/// Two adjacent kept cells always land in the same component: a region
/// that spans the antimeridian (last column adjacent to column zero) is
/// reported as one component, never split in two.
pub proof fn lemma_adjacent_same_component(
    ps: Seq<Seq<usize>>,
    a: usize,
    b: usize,
    keep: Seq<bool>,
    nx: int,
    ny: int,
)
    requires
        valid_dims(nx, ny),
        keep.len() == nx * ny,
        is_partition(ps, keep, nx, ny),
        kept(keep, a as int),
        kept(keep, b as int),
        adjacent(a as int, b as int, nx, ny),
    ensures
        exists|k: int| 0 <= k < ps.len() && (#[trigger] ps[k]).contains(a) && ps[k].contains(b),
        forall|k: int|
            0 <= k < ps.len() ==> ((#[trigger] ps[k]).contains(a) <==> ps[k].contains(b)),
{
    let ka = choose|k: int| 0 <= k < ps.len() && (#[trigger] ps[k]).contains(a);
    assert forall|k: int| 0 <= k < ps.len() implies ((#[trigger] ps[k]).contains(a)
        <==> ps[k].contains(b)) by {
        if ps[k].contains(a) {
            let m = choose|m: int| 0 <= m < ps[k].len() && ps[k][m] == a;
            assert(adjacent(ps[k][m] as int, b as int, nx, ny));
            assert(ps[k].contains(b));
        }
        if ps[k].contains(b) {
            let m = choose|m: int| 0 <= m < ps[k].len() && ps[k][m] == b;
            lemma_adjacent_sym(a as int, b as int, nx, ny);
            assert(adjacent(ps[k][m] as int, a as int, nx, ny));
            assert(ps[k].contains(a));
        }
    }
    assert(ps[ka].contains(a) && ps[ka].contains(b));
}

/// Component seeds grow at least as fast as their ids: with seeds
/// strictly increasing from component to component, component `k`'s
/// seed is at least `k`.
proof fn lemma_seed_lower_bound(ps: Seq<Seq<usize>>, k: int)
    requires
        forall|k1: int, k2: int|
            #![trigger ps[k1][0], ps[k2][0]]
            0 <= k1 < k2 < ps.len() ==> ps[k1][0] < ps[k2][0],
        0 <= k < ps.len(),
    ensures
        ps[k][0] >= k,
    decreases k,
{
    if k > 0 {
        lemma_seed_lower_bound(ps, k - 1);
        assert(ps[k - 1][0] < ps[k][0]);
    }
}

/// The full coloring pass of the partition map, chained and verified
/// end to end: partition the kept cells, label every cell with its
/// component id (or the reserved id), build the color table sized to
/// the component count plus its reserved entry, and paint each cell.
/// Each stage's precondition is discharged by the previous stage's
/// postcondition, so no stage can meet an out-of-range label.
pub fn partition_color_map(keep: &Vec<bool>, shape: (usize, usize)) -> (r: (
    Vec<Vec<usize>>,
    Vec<usize>,
    Vec<Rgb>,
))
    requires
        valid_dims(shape.0 as int, shape.1 as int),
        shape.0 <= usize::MAX / 2,
        shape.0 * shape.1 < usize::MAX,
        keep@.len() == shape.0 * shape.1,
    ensures
        is_partition(r.0@.map_values(|p: Vec<usize>| p@), keep@, shape.0 as int, shape.1 as int),
        r.1@.len() == keep@.len(),
        forall|k: int, m: int|
            0 <= k < r.0@.len() && 0 <= m < (#[trigger] r.0@[k])@.len() ==> r.1@[(
            #[trigger] r.0@[k]@[m]) as int] == k,
        forall|c: int|
            0 <= c < r.1@.len() && (forall|k: int|
                0 <= k < r.0@.len() ==> !(#[trigger] r.0@[k])@.contains(c as usize)) ==> r.1@[c]
                == r.0@.len(),
        r.2@.len() == keep@.len(),
        forall|c: int|
            0 <= c < r.2@.len() ==> (#[trigger] r.2@[c]) == (if r.1@[c] < r.0@.len() {
                crate::colors::spec_hsv_to_rgb(crate::colors::hue_of(r.1@[c] as int), 255)
            } else {
                Rgb { r: 0, g: 0, b: 0 }
            }),
{
    let (nx, ny) = shape;
    let total = nx * ny;
    let patches = partition_crust(keep, shape);
    proof {
        let ps = patches@.map_values(|p: Vec<usize>| p@);
        assert forall|k: int, m: int|
            0 <= k < patches@.len() && 0 <= m < (#[trigger] patches@[k])@.len() implies (
        #[trigger] patches@[k]@[m]) < total by {
            assert(ps[k] == patches@[k]@);
            assert(kept(keep@, ps[k][m] as int));
        }
        assert forall|k1: int, k2: int, c: usize|
            0 <= k1 < k2 < patches@.len() && #[trigger] patches@[k1]@.contains(c) implies !(
        #[trigger] patches@[k2]@.contains(c)) by {
            assert(ps[k1] == patches@[k1]@);
            assert(ps[k2] == patches@[k2]@);
            assert(ps[k1].contains(c));
        }
        // component count never exceeds the cell count: seeds strictly
        // increase and each is a valid cell
        if patches@.len() > 0 {
            let last = patches@.len() - 1;
            assert forall|k1: int, k2: int|
                #![trigger ps[k1][0], ps[k2][0]]
                0 <= k1 < k2 < ps.len() implies ps[k1][0] < ps[k2][0] by {
                assert(ps[k1] == patches@[k1]@);
                assert(ps[k2] == patches@[k2]@);
            }
            lemma_seed_lower_bound(ps, last);
            assert(ps[last] == patches@[last]@);
            assert(kept(keep@, ps[last][0] as int));
            assert(patches@.len() <= total);
        }
    }
    let labels = label_partitions(&patches, total);
    let colors = crate::colors::generate_colors(patches.len() + 1);
    proof {
        assert forall|i: int| 0 <= i < labels@.len() implies (#[trigger] labels@[i])
            < colors@.len() by {
            assert(labels@[i] <= patches@.len());
        }
    }
    let painted = crate::colors::colorize_labels(&labels, &colors);
    proof {
        assert forall|c: int|
            0 <= c < painted@.len() implies (#[trigger] painted@[c]) == (if labels@[c]
                < patches@.len() {
                crate::colors::spec_hsv_to_rgb(crate::colors::hue_of(labels@[c] as int), 255)
            } else {
                Rgb { r: 0, g: 0, b: 0 }
            }) by {
            assert(painted@[c] == colors@[labels@[c] as int]);
            if labels@[c] < patches@.len() {
                assert(colors@[labels@[c] as int] == crate::colors::spec_hsv_to_rgb(
                    crate::colors::hue_of(labels@[c] as int),
                    255,
                ));
            } else {
                assert(labels@[c] == patches@.len());
                assert(colors@[labels@[c] as int] == (Rgb { r: 0, g: 0, b: 0 }));
            }
        }
    }
    (patches, labels, painted)
}

} // verus!
