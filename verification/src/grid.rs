//! The mathematical model of an incidence cube: a three-deep sequence of
//! cells, the weight of its axis lines, and the lemmas that relate line
//! weights to the cells on the line.

use vstd::prelude::*;

use crate::cell::CubeEntry;
use crate::cell::entry_val;
use crate::latin_square::SearchCoord;

verus! {

/// The cube as pure data: `g[x][y][z]` is the cell at (x, y, z).
pub type Grid = Seq<Seq<Seq<CubeEntry>>>;

/// The point (x, y, z) lies inside a cube of order n.
pub open spec fn in_cube(n: int, x: int, y: int, z: int) -> bool {
    0 <= x < n && 0 <= y < n && 0 <= z < n
}

/// The grid is a full n x n x n box.
pub open spec fn cube_shaped(g: Grid, n: int) -> bool {
    &&& g.len() == n
    &&& forall|x: int| 0 <= x < n ==> (#[trigger] g[x]).len() == n
    &&& forall|x: int, y: int|
        0 <= x < n && 0 <= y < n ==> (#[trigger] g[x][y]).len() == n
}

/// The point of the line through (x, y, z) along `axis` whose component on
/// that axis is `j`.
pub open spec fn axis_index(x: int, y: int, z: int, axis: SearchCoord, j: int) -> (int, int, int) {
    match axis {
        SearchCoord::X => (j, y, z),
        SearchCoord::Y => (x, j, z),
        SearchCoord::Z => (x, y, j),
    }
}

/// The cell at position `j` of that line.
pub open spec fn line_entry(g: Grid, x: int, y: int, z: int, axis: SearchCoord, j: int) -> CubeEntry {
    let p = axis_index(x, y, z, axis, j);
    g[p.0][p.1][p.2]
}

/// The weight of that cell.
pub open spec fn line_val(g: Grid, x: int, y: int, z: int, axis: SearchCoord, j: int) -> int {
    entry_val(line_entry(g, x, y, z, axis, j))
}

/// The weight of the first `k` cells of the line.
pub open spec fn line_sum(g: Grid, x: int, y: int, z: int, axis: SearchCoord, k: int) -> int
    decreases k,
{
    if k <= 0 {
        0
    } else {
        line_sum(g, x, y, z, axis, k - 1) + line_val(g, x, y, z, axis, k - 1)
    }
}

/// Every axis line of the cube weighs exactly one. Together with at most
/// one `Improper` cell this is the state the walk preserves.
pub open spec fn lines_ok(g: Grid, n: int) -> bool {
    forall|x: int, y: int, z: int, axis: SearchCoord|
        in_cube(n, x, y, z) ==> #[trigger] line_sum(g, x, y, z, axis, n) == 1
}

/// No cell of the cube is `Improper`.
pub open spec fn no_improper_at_all(g: Grid, n: int) -> bool {
    forall|x: int, y: int, z: int|
        in_cube(n, x, y, z) ==> !((#[trigger] g[x][y][z]) is Improper)
}

/// No cell of the cube is `Improper`, except possibly (ux, uy, uz).
pub open spec fn improper_only_at(g: Grid, n: int, ux: int, uy: int, uz: int) -> bool {
    forall|x: int, y: int, z: int|
        in_cube(n, x, y, z) && !(x == ux && y == uy && z == uz)
            ==> !((#[trigger] g[x][y][z]) is Improper)
}

/// Nonnegative cells keep a line sum monotone over a range.
pub proof fn lemma_line_sum_mono(
    g: Grid, x: int, y: int, z: int, axis: SearchCoord, lo: int, k: int,
)
    requires
        0 <= lo <= k,
        forall|m: int| lo <= m < k ==> #[trigger] line_val(g, x, y, z, axis, m) >= 0,
    ensures
        line_sum(g, x, y, z, axis, k) >= line_sum(g, x, y, z, axis, lo),
    decreases k,
{
    if k > lo {
        lemma_line_sum_mono(g, x, y, z, axis, lo, k - 1);
    }
}

/// A strict weight increase over a range of nonnegative cells pins an `On`
/// cell somewhere in the range.
pub proof fn lemma_range_has_on(
    g: Grid, x: int, y: int, z: int, axis: SearchCoord, lo: int, k: int,
)
    requires
        0 <= lo <= k,
        forall|m: int| lo <= m < k ==> #[trigger] line_val(g, x, y, z, axis, m) >= 0,
        line_sum(g, x, y, z, axis, k) > line_sum(g, x, y, z, axis, lo),
    ensures
        exists|j: int| lo <= j < k && (#[trigger] line_entry(g, x, y, z, axis, j)) is On,
    decreases k,
{
    if k > lo {
        if line_val(g, x, y, z, axis, k - 1) > 0 {
            assert(line_entry(g, x, y, z, axis, k - 1) is On);
        } else {
            lemma_range_has_on(g, x, y, z, axis, lo, k - 1);
        }
    }
}

/// A range of nonnegative cells whose weight stays below its length holds
/// an `Off` cell.
pub proof fn lemma_range_has_off(
    g: Grid, x: int, y: int, z: int, axis: SearchCoord, lo: int, k: int,
)
    requires
        0 <= lo <= k,
        forall|m: int| lo <= m < k ==> #[trigger] line_val(g, x, y, z, axis, m) >= 0,
        line_sum(g, x, y, z, axis, k) - line_sum(g, x, y, z, axis, lo) < k - lo,
    ensures
        exists|j: int| lo <= j < k && (#[trigger] line_entry(g, x, y, z, axis, j)) is Off,
    decreases k,
{
    if k > lo {
        if line_val(g, x, y, z, axis, k - 1) == 0 {
            assert(line_entry(g, x, y, z, axis, k - 1) is Off);
        } else {
            lemma_range_has_off(g, x, y, z, axis, lo, k - 1);
        }
    }
}

/// Two `On` cells push the weight of a nonnegative range to two.
pub proof fn lemma_range_two_on(
    g: Grid, x: int, y: int, z: int, axis: SearchCoord, lo: int, k: int, j1: int, j2: int,
)
    requires
        0 <= lo <= j1 < j2 < k,
        forall|m: int| lo <= m < k ==> #[trigger] line_val(g, x, y, z, axis, m) >= 0,
        line_entry(g, x, y, z, axis, j1) is On,
        line_entry(g, x, y, z, axis, j2) is On,
    ensures
        line_sum(g, x, y, z, axis, k) - line_sum(g, x, y, z, axis, lo) >= 2,
{
    lemma_line_sum_mono(g, x, y, z, axis, j2 + 1, k);
    lemma_line_sum_mono(g, x, y, z, axis, j1 + 1, j2);
    lemma_line_sum_mono(g, x, y, z, axis, lo, j1);
    assert(line_sum(g, x, y, z, axis, j2 + 1)
        == line_sum(g, x, y, z, axis, j2) + line_val(g, x, y, z, axis, j2));
    assert(line_sum(g, x, y, z, axis, j1 + 1)
        == line_sum(g, x, y, z, axis, j1) + line_val(g, x, y, z, axis, j1));
}

/// A nonnegative range whose weight rises by two holds two `On` cells.
pub proof fn lemma_range_sum2_two_on(
    g: Grid, x: int, y: int, z: int, axis: SearchCoord, lo: int, k: int,
) -> (r: (int, int))
    requires
        0 <= lo <= k,
        forall|m: int| lo <= m < k ==> #[trigger] line_val(g, x, y, z, axis, m) >= 0,
        line_sum(g, x, y, z, axis, k) - line_sum(g, x, y, z, axis, lo) >= 2,
    ensures
        lo <= r.0 < r.1 < k,
        line_entry(g, x, y, z, axis, r.0) is On,
        line_entry(g, x, y, z, axis, r.1) is On,
{
    lemma_range_has_on(g, x, y, z, axis, lo, k);
    let j = choose|j: int| lo <= j < k && (#[trigger] line_entry(g, x, y, z, axis, j)) is On;
    assert(line_sum(g, x, y, z, axis, j + 1)
        == line_sum(g, x, y, z, axis, j) + line_val(g, x, y, z, axis, j));
    if line_sum(g, x, y, z, axis, j) - line_sum(g, x, y, z, axis, lo) >= 1 {
        lemma_range_has_on(g, x, y, z, axis, lo, j);
        let i = choose|i: int| lo <= i < j && (#[trigger] line_entry(g, x, y, z, axis, i)) is On;
        (i, j)
    } else {
        assert(line_sum(g, x, y, z, axis, k) - line_sum(g, x, y, z, axis, j + 1) >= 1) by {
            lemma_line_sum_mono(g, x, y, z, axis, lo, j);
        }
        lemma_range_has_on(g, x, y, z, axis, j + 1, k);
        let i = choose|i: int|
            j + 1 <= i < k && (#[trigger] line_entry(g, x, y, z, axis, i)) is On;
        (j, i)
    }
}

/// On a line of weight one without `Improper` cells, a known `On` cell is
/// the only one: every other cell of the line is `Off`.
pub proof fn lemma_line_unique_on(
    g: Grid, x: int, y: int, z: int, axis: SearchCoord, n: int, j: int,
)
    requires
        0 <= j < n,
        forall|m: int| 0 <= m < n ==> #[trigger] line_val(g, x, y, z, axis, m) >= 0,
        line_sum(g, x, y, z, axis, n) == 1,
        line_entry(g, x, y, z, axis, j) is On,
    ensures
        forall|m: int|
            0 <= m < n && m != j ==> (#[trigger] line_entry(g, x, y, z, axis, m)) is Off,
{
    assert forall|m: int|
        0 <= m < n && m != j implies (#[trigger] line_entry(g, x, y, z, axis, m)) is Off by {
        assert(line_val(g, x, y, z, axis, m) >= 0);
        if line_entry(g, x, y, z, axis, m) is On {
            if m < j {
                lemma_range_two_on(g, x, y, z, axis, 0, n, m, j);
            } else {
                lemma_range_two_on(g, x, y, z, axis, 0, n, j, m);
            }
        }
    }
}

/// A line of weight one that carries an `Improper` cell at `p` and no other
/// holds two `On` cells.
pub proof fn lemma_improper_line_two_on(
    g: Grid, x: int, y: int, z: int, axis: SearchCoord, n: int, p: int,
) -> (r: (int, int))
    requires
        0 <= p < n,
        line_entry(g, x, y, z, axis, p) is Improper,
        forall|m: int|
            0 <= m < n && m != p ==> #[trigger] line_val(g, x, y, z, axis, m) >= 0,
        line_sum(g, x, y, z, axis, n) == 1,
    ensures
        0 <= r.0 < r.1 < n,
        line_entry(g, x, y, z, axis, r.0) is On,
        line_entry(g, x, y, z, axis, r.1) is On,
{
    assert(line_sum(g, x, y, z, axis, p + 1)
        == line_sum(g, x, y, z, axis, p) + line_val(g, x, y, z, axis, p));
    let a = line_sum(g, x, y, z, axis, p) - line_sum(g, x, y, z, axis, 0);
    let b = line_sum(g, x, y, z, axis, n) - line_sum(g, x, y, z, axis, p + 1);
    assert(a + b == 2);
    lemma_line_sum_mono(g, x, y, z, axis, 0, p);
    lemma_line_sum_mono(g, x, y, z, axis, p + 1, n);
    if a >= 2 {
        lemma_range_sum2_two_on(g, x, y, z, axis, 0, p)
    } else if b >= 2 {
        lemma_range_sum2_two_on(g, x, y, z, axis, p + 1, n)
    } else {
        lemma_range_has_on(g, x, y, z, axis, 0, p);
        lemma_range_has_on(g, x, y, z, axis, p + 1, n);
        let i = choose|i: int| 0 <= i < p && (#[trigger] line_entry(g, x, y, z, axis, i)) is On;
        let j = choose|j: int|
            p + 1 <= j < n && (#[trigger] line_entry(g, x, y, z, axis, j)) is On;
        (i, j)
    }
}

/// The line through (x, y, z) along `axis`, cut at length `k`, passes
/// through the point (ux, uy, uz).
pub open spec fn line_hits(
    x: int, y: int, z: int, axis: SearchCoord, k: int, ux: int, uy: int, uz: int,
) -> bool {
    match axis {
        SearchCoord::X => y == uy && z == uz && 0 <= ux < k,
        SearchCoord::Y => x == ux && z == uz && 0 <= uy < k,
        SearchCoord::Z => x == ux && y == uy && 0 <= uz < k,
    }
}

/// Two grids that agree everywhere but at one point: how the change shifts
/// the partial weight of a single line.
proof fn lemma_line_sum_update_one(
    g1: Grid, g2: Grid, n: int, ux: int, uy: int, uz: int,
    x: int, y: int, z: int, axis: SearchCoord, k: int,
)
    requires
        in_cube(n, ux, uy, uz),
        in_cube(n, x, y, z),
        forall|i: int, j: int, l: int|
            in_cube(n, i, j, l) && !(i == ux && j == uy && l == uz)
                ==> #[trigger] g2[i][j][l] == g1[i][j][l],
        0 <= k <= n,
    ensures
        line_sum(g2, x, y, z, axis, k) == line_sum(g1, x, y, z, axis, k)
            + if line_hits(x, y, z, axis, k, ux, uy, uz) {
                val_at(g2, ux, uy, uz) - val_at(g1, ux, uy, uz)
            } else {
                0int
            },
    decreases k,
{
    if k > 0 {
        lemma_line_sum_update_one(g1, g2, n, ux, uy, uz, x, y, z, axis, k - 1);
        let p = axis_index(x, y, z, axis, k - 1);
        if !(p.0 == ux && p.1 == uy && p.2 == uz) {
            assert(g2[p.0][p.1][p.2] == g1[p.0][p.1][p.2]);
        }
    }
}

/// The weight of the cell at (x, y, z).
pub open spec fn val_at(g: Grid, x: int, y: int, z: int) -> int {
    entry_val(g[x][y][z])
}

/// Two grids that agree everywhere but at one point: every full line sum
/// of the second is the first's, shifted by the change where the line
/// passes through the changed point.
pub proof fn lemma_line_sums_update(g1: Grid, g2: Grid, n: int, ux: int, uy: int, uz: int)
    requires
        in_cube(n, ux, uy, uz),
        forall|i: int, j: int, l: int|
            in_cube(n, i, j, l) && !(i == ux && j == uy && l == uz)
                ==> #[trigger] g2[i][j][l] == g1[i][j][l],
    ensures
        forall|x: int, y: int, z: int, axis: SearchCoord|
            in_cube(n, x, y, z) ==> #[trigger] line_sum(g2, x, y, z, axis, n)
                == line_sum(g1, x, y, z, axis, n)
                    + if line_hits(x, y, z, axis, n, ux, uy, uz) {
                        val_at(g2, ux, uy, uz) - val_at(g1, ux, uy, uz)
                    } else {
                        0int
                    },
{
    assert forall|x: int, y: int, z: int, axis: SearchCoord|
        in_cube(n, x, y, z) implies #[trigger] line_sum(g2, x, y, z, axis, n)
            == line_sum(g1, x, y, z, axis, n)
                + if line_hits(x, y, z, axis, n, ux, uy, uz) {
                    val_at(g2, ux, uy, uz) - val_at(g1, ux, uy, uz)
                } else {
                    0int
                } by {
        lemma_line_sum_update_one(g1, g2, n, ux, uy, uz, x, y, z, axis, n);
    }
}

/// 1 for an `On` cell, 0 otherwise.
pub open spec fn on_ind(e: CubeEntry) -> int {
    if e is On { 1 } else { 0 }
}

/// 1 for an `Improper` cell, 0 otherwise.
pub open spec fn improper_ind(e: CubeEntry) -> int {
    if e is Improper { 1 } else { 0 }
}

/// How many of the first `k` cells of the z line at (x, y) are `On`.
pub open spec fn line_on_count(g: Grid, x: int, y: int, k: int) -> int
    decreases k,
{
    if k <= 0 { 0 } else { line_on_count(g, x, y, k - 1) + on_ind(g[x][y][k - 1]) }
}

/// How many cells of the first `k` z lines of plane `x` are `On`.
pub open spec fn plane_on_count(g: Grid, x: int, n: int, k: int) -> int
    decreases k,
{
    if k <= 0 { 0 } else { plane_on_count(g, x, n, k - 1) + line_on_count(g, x, k - 1, n) }
}

/// How many cells of the first `k` planes are `On`.
pub open spec fn cube_on_count(g: Grid, n: int, k: int) -> int
    decreases k,
{
    if k <= 0 { 0 } else { cube_on_count(g, n, k - 1) + plane_on_count(g, k - 1, n, n) }
}

/// How many cells of the whole cube are `On`.
pub open spec fn on_cell_count(g: Grid, n: int) -> int {
    cube_on_count(g, n, n)
}

/// How many of the first `k` cells of the z line at (x, y) are `Improper`.
pub open spec fn line_improper_count(g: Grid, x: int, y: int, k: int) -> int
    decreases k,
{
    if k <= 0 { 0 } else { line_improper_count(g, x, y, k - 1) + improper_ind(g[x][y][k - 1]) }
}

/// How many cells of the first `k` z lines of plane `x` are `Improper`.
pub open spec fn plane_improper_count(g: Grid, x: int, n: int, k: int) -> int
    decreases k,
{
    if k <= 0 {
        0
    } else {
        plane_improper_count(g, x, n, k - 1) + line_improper_count(g, x, k - 1, n)
    }
}

/// How many cells of the first `k` planes are `Improper`.
pub open spec fn cube_improper_count(g: Grid, n: int, k: int) -> int
    decreases k,
{
    if k <= 0 { 0 } else { cube_improper_count(g, n, k - 1) + plane_improper_count(g, k - 1, n, n) }
}

/// How many cells of the whole cube are `Improper`.
pub open spec fn improper_cell_count(g: Grid, n: int) -> int {
    cube_improper_count(g, n, n)
}

/// The signed weight of the first `k` z lines of plane `x`.
pub open spec fn plane_val_sum(g: Grid, x: int, n: int, k: int) -> int
    decreases k,
{
    if k <= 0 {
        0
    } else {
        plane_val_sum(g, x, n, k - 1) + line_sum(g, x, k - 1, 0, SearchCoord::Z, n)
    }
}

/// The signed weight of the first `k` planes.
pub open spec fn cube_val_sum(g: Grid, n: int, k: int) -> int
    decreases k,
{
    if k <= 0 { 0 } else { cube_val_sum(g, n, k - 1) + plane_val_sum(g, k - 1, n, n) }
}

proof fn lemma_plane_val_sum_ones(g: Grid, n: int, x: int, k: int)
    requires
        lines_ok(g, n),
        0 <= x < n,
        0 <= k <= n,
    ensures
        plane_val_sum(g, x, n, k) == k,
    decreases k,
{
    if k > 0 {
        lemma_plane_val_sum_ones(g, n, x, k - 1);
        assert(in_cube(n, x, k - 1, 0));
    }
}

proof fn lemma_cube_val_sum_ones(g: Grid, n: int, k: int)
    requires
        lines_ok(g, n),
        0 < n,
        0 <= k <= n,
    ensures
        cube_val_sum(g, n, k) == k * n,
    decreases k,
{
    if k > 0 {
        lemma_cube_val_sum_ones(g, n, k - 1);
        lemma_plane_val_sum_ones(g, n, k - 1, n);
        assert((k - 1) * n + n == k * n) by (nonlinear_arith);
    } else {
        assert(0 * n == 0) by (nonlinear_arith);
    }
}

proof fn lemma_line_counts_split(g: Grid, x: int, y: int, k: int)
    requires
        0 <= k,
    ensures
        line_on_count(g, x, y, k)
            == line_sum(g, x, y, 0, SearchCoord::Z, k) + line_improper_count(g, x, y, k),
    decreases k,
{
    if k > 0 {
        lemma_line_counts_split(g, x, y, k - 1);
    }
}

proof fn lemma_plane_counts_split(g: Grid, x: int, n: int, k: int)
    requires
        0 <= k,
        0 <= n,
    ensures
        plane_on_count(g, x, n, k)
            == plane_val_sum(g, x, n, k) + plane_improper_count(g, x, n, k),
    decreases k,
{
    if k > 0 {
        lemma_plane_counts_split(g, x, n, k - 1);
        lemma_line_counts_split(g, x, k - 1, n);
    }
}

proof fn lemma_cube_counts_split(g: Grid, n: int, k: int)
    requires
        0 <= k,
        0 <= n,
    ensures
        cube_on_count(g, n, k) == cube_val_sum(g, n, k) + cube_improper_count(g, n, k),
    decreases k,
{
    if k > 0 {
        lemma_cube_counts_split(g, n, k - 1);
        lemma_plane_counts_split(g, k - 1, n, n);
    }
}

proof fn lemma_line_improper_zero(g: Grid, n: int, x: int, y: int, k: int)
    requires
        no_improper_at_all(g, n),
        0 <= x < n,
        0 <= y < n,
        0 <= k <= n,
    ensures
        line_improper_count(g, x, y, k) == 0,
    decreases k,
{
    if k > 0 {
        lemma_line_improper_zero(g, n, x, y, k - 1);
        assert(!(g[x][y][k - 1] is Improper));
    }
}

proof fn lemma_plane_improper_zero(g: Grid, n: int, x: int, k: int)
    requires
        no_improper_at_all(g, n),
        0 <= x < n,
        0 <= k <= n,
    ensures
        plane_improper_count(g, x, n, k) == 0,
    decreases k,
{
    if k > 0 {
        lemma_plane_improper_zero(g, n, x, k - 1);
        lemma_line_improper_zero(g, n, x, k - 1, n);
    }
}

proof fn lemma_cube_improper_zero(g: Grid, n: int, k: int)
    requires
        no_improper_at_all(g, n),
        0 <= k <= n,
    ensures
        cube_improper_count(g, n, k) == 0,
    decreases k,
{
    if k > 0 {
        lemma_cube_improper_zero(g, n, k - 1);
        lemma_plane_improper_zero(g, n, k - 1, n);
    }
}

proof fn lemma_line_improper_single(g: Grid, n: int, x: int, y: int, k: int, ux: int, uy: int, uz: int)
    requires
        improper_only_at(g, n, ux, uy, uz),
        in_cube(n, ux, uy, uz),
        0 <= x < n,
        0 <= y < n,
        0 <= k <= n,
    ensures
        line_improper_count(g, x, y, k)
            == if x == ux && y == uy && uz < k && g[ux][uy][uz] is Improper { 1int } else { 0int },
    decreases k,
{
    if k > 0 {
        lemma_line_improper_single(g, n, x, y, k - 1, ux, uy, uz);
        if !(x == ux && y == uy && k - 1 == uz) {
            assert(!(g[x][y][k - 1] is Improper));
        }
    }
}

proof fn lemma_plane_improper_single(g: Grid, n: int, x: int, k: int, ux: int, uy: int, uz: int)
    requires
        improper_only_at(g, n, ux, uy, uz),
        in_cube(n, ux, uy, uz),
        0 <= x < n,
        0 <= k <= n,
    ensures
        plane_improper_count(g, x, n, k)
            == if x == ux && uy < k && g[ux][uy][uz] is Improper { 1int } else { 0int },
    decreases k,
{
    if k > 0 {
        lemma_plane_improper_single(g, n, x, k - 1, ux, uy, uz);
        lemma_line_improper_single(g, n, x, k - 1, n, ux, uy, uz);
    }
}

proof fn lemma_cube_improper_single(g: Grid, n: int, k: int, ux: int, uy: int, uz: int)
    requires
        improper_only_at(g, n, ux, uy, uz),
        in_cube(n, ux, uy, uz),
        0 <= k <= n,
    ensures
        cube_improper_count(g, n, k)
            == if ux < k && g[ux][uy][uz] is Improper { 1int } else { 0int },
    decreases k,
{
    if k > 0 {
        lemma_cube_improper_single(g, n, k - 1, ux, uy, uz);
        lemma_plane_improper_single(g, n, k - 1, n, ux, uy, uz);
    }
}

/// A cube whose lines all weigh one and that holds no `Improper` cell has
/// exactly n * n `On` cells.
pub proof fn lemma_on_count_proper(g: Grid, n: int)
    requires
        lines_ok(g, n),
        no_improper_at_all(g, n),
        0 < n,
    ensures
        on_cell_count(g, n) == n * n,
        improper_cell_count(g, n) == 0,
{
    lemma_cube_val_sum_ones(g, n, n);
    lemma_cube_counts_split(g, n, n);
    lemma_cube_improper_zero(g, n, n);
}

/// A cube whose lines all weigh one and that holds exactly one `Improper`
/// cell has n * n + 1 `On` cells.
pub proof fn lemma_on_count_improper(g: Grid, n: int, ux: int, uy: int, uz: int)
    requires
        lines_ok(g, n),
        improper_only_at(g, n, ux, uy, uz),
        in_cube(n, ux, uy, uz),
        g[ux][uy][uz] is Improper,
        0 < n,
    ensures
        on_cell_count(g, n) == n * n + 1,
        improper_cell_count(g, n) == 1,
{
    lemma_cube_val_sum_ones(g, n, n);
    lemma_cube_counts_split(g, n, n);
    lemma_cube_improper_single(g, n, n, ux, uy, uz);
}

/// A line whose cells are `Off` everywhere but one `On` cell weighs one.
pub proof fn lemma_line_single_on_sum(
    g: Grid, x: int, y: int, z: int, axis: SearchCoord, k: int, j: int,
)
    requires
        0 <= j,
        line_entry(g, x, y, z, axis, j) is On,
        forall|m: int|
            0 <= m < k && m != j ==> (#[trigger] line_entry(g, x, y, z, axis, m)) is Off,
    ensures
        line_sum(g, x, y, z, axis, k) == if j < k { 1int } else { 0int },
    decreases k,
{
    if k > 0 {
        lemma_line_single_on_sum(g, x, y, z, axis, k - 1, j);
    }
}

} // verus!
