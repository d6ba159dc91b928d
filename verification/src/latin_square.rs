//! The incidence-cube random walk and the squares it produces.
//!
//! An n x n x n cube of [`CubeEntry`] cells encodes an n x n latin square:
//! `On` at (x, y, z) means that row x, column y holds symbol z. The walk of
//! Jacobson and Matthews repeatedly flips the eight corners of a random
//! 2 x 2 x 2 sub-box, keeping every axis line at weight one and carrying at
//! most one `Improper` cell between moves.

use vstd::prelude::*;

use crate::cell::CubeEntry;
use crate::grid::Grid;
use crate::grid::axis_index;
use crate::grid::cube_shaped;
use crate::grid::in_cube;
use crate::grid::improper_only_at;
use crate::grid::no_improper_at_all;
use crate::grid::line_entry;
use crate::grid::line_val;
use crate::grid::line_sum;
use crate::grid::line_hits;
use crate::grid::lines_ok;
use crate::grid::val_at;
use crate::grid::on_cell_count;
use crate::grid::improper_cell_count;
use crate::grid::lemma_range_has_on;
use crate::grid::lemma_range_has_off;
use crate::grid::lemma_range_two_on;
use crate::grid::lemma_improper_line_two_on;
use crate::grid::lemma_line_unique_on;
use crate::grid::lemma_line_single_on_sum;
use crate::grid::lemma_line_sums_update;
use crate::grid::lemma_on_count_proper;
use crate::grid::lemma_on_count_improper;
use crate::rng;

verus! {

/// What can go wrong when a square is requested.
///
/// `InvalidOrder` rejects the degenerate orders 0 and 1. `UnresolvedImproper`
/// reports that the walk's cleanup phase ran out of its (astronomically
/// generous) step budget before the cube became proper again; no practical
/// run reaches it.
#[derive(Debug, Copy, Clone, PartialEq, Eq, Structural)]
pub enum LatinSquareError {
    InvalidOrder,
    UnresolvedImproper,
}

/// The symbol at row `r`, column `c` of a square, as a plain integer.
pub open spec fn sym_at(q: Seq<Seq<usize>>, r: int, c: int) -> int {
    q[r][c] as int
}

/// Some column of row `r` holds symbol `s`.
pub open spec fn row_has_symbol(q: Seq<Seq<usize>>, n: int, r: int, s: int) -> bool {
    exists|c: int| 0 <= c < n && sym_at(q, r, c) == s
}

/// Some row of column `c` holds symbol `s`.
pub open spec fn col_has_symbol(q: Seq<Seq<usize>>, n: int, c: int, s: int) -> bool {
    exists|r: int| 0 <= r < n && sym_at(q, r, c) == s
}

/// The defining property: an n x n grid of symbols below n in which every
/// row and every column holds every symbol exactly once.
pub open spec fn is_latin_square(q: Seq<Seq<usize>>, n: int) -> bool {
    &&& q.len() == n
    &&& forall|r: int| 0 <= r < n ==> (#[trigger] q[r]).len() == n
    &&& forall|r: int, c: int|
        0 <= r < n && 0 <= c < n ==> 0 <= #[trigger] sym_at(q, r, c) < n
    &&& forall|r: int, c1: int, c2: int|
        0 <= r < n && 0 <= c1 < n && 0 <= c2 < n && sym_at(q, r, c1) == sym_at(q, r, c2)
            ==> c1 == c2
    &&& forall|r1: int, r2: int, c: int|
        0 <= r1 < n && 0 <= r2 < n && 0 <= c < n && sym_at(q, r1, c) == sym_at(q, r2, c)
            ==> r1 == r2
    &&& forall|r: int, s: int| 0 <= r < n && 0 <= s < n ==> #[trigger] row_has_symbol(q, n, r, s)
    &&& forall|c: int, s: int| 0 <= c < n && 0 <= s < n ==> #[trigger] col_has_symbol(q, n, c, s)
}

/// The symbol of the canonical cyclic square at row `r`, column `c`:
/// (r + c) reduced modulo n.
pub open spec fn cyclic_symbol(n: int, r: int, c: int) -> int {
    if r + c < n { r + c } else { r + c - n }
}

/// The axis along which a cube line is searched.
#[derive(Debug, Copy, Clone, PartialEq, Eq, Structural)]
pub enum SearchCoord {
    X,
    Y,
    Z,
}

/// A point of the cube, with axis-agnostic access so that search code can
/// be written once for all three axes.
#[derive(Debug, Copy, Clone, PartialEq, Eq, Structural)]
pub struct Coordinate {
    pub x: usize,
    pub y: usize,
    pub z: usize,
}

impl Coordinate {
    /// The component of this point that lies on the given axis.
    pub open spec fn axis_val(self, coord: SearchCoord) -> usize {
        match coord {
            SearchCoord::X => self.x,
            SearchCoord::Y => self.y,
            SearchCoord::Z => self.z,
        }
    }

    /// Steps this point one cell further along the given axis.
    pub fn increment(&mut self, coord: SearchCoord)
        requires
            old(self).axis_val(coord) < usize::MAX,
        ensures
            ({
                let o = *old(self);
                let f = *final(self);
                match coord {
                    SearchCoord::X => f.x == o.x + 1 && f.y == o.y && f.z == o.z,
                    SearchCoord::Y => f.x == o.x && f.y == o.y + 1 && f.z == o.z,
                    SearchCoord::Z => f.x == o.x && f.y == o.y && f.z == o.z + 1,
                }
            }),
    {
        match coord {
            SearchCoord::X => self.x = self.x + 1,
            SearchCoord::Y => self.y = self.y + 1,
            SearchCoord::Z => self.z = self.z + 1,
        }
    }

    /// Reads the component on the axis being searched.
    pub fn search_axis(&self, coord: SearchCoord) -> (r: usize)
        ensures
            r == self.axis_val(coord),
    {
        match coord {
            SearchCoord::X => self.x,
            SearchCoord::Y => self.y,
            SearchCoord::Z => self.z,
        }
    }

    /// A search start: the two fixed components are kept and the searched
    /// one is zeroed, ready to be stepped upward.
    pub fn init_for_search(x: usize, y: usize, z: usize, search: SearchCoord) -> (r: Coordinate)
        ensures
            ({
                match search {
                    SearchCoord::X => r.x == 0 && r.y == y && r.z == z,
                    SearchCoord::Y => r.x == x && r.y == 0 && r.z == z,
                    SearchCoord::Z => r.x == x && r.y == y && r.z == 0,
                }
            }),
    {
        match search {
            SearchCoord::X => Coordinate { x: 0, y, z },
            SearchCoord::Y => Coordinate { x, y: 0, z },
            SearchCoord::Z => Coordinate { x, y, z: 0 },
        }
    }
}

/// The two components of the start point that a search along `axis` keeps
/// fixed are inside a cube of order n.
pub open spec fn line_start_ok(c: Coordinate, axis: SearchCoord, n: int) -> bool {
    match axis {
        SearchCoord::X => c.y < n && c.z < n,
        SearchCoord::Y => c.x < n && c.z < n,
        SearchCoord::Z => c.x < n && c.y < n,
    }
}

/// The two points lie on the same line along `axis`.
pub open spec fn same_line(a: Coordinate, b: Coordinate, axis: SearchCoord) -> bool {
    match axis {
        SearchCoord::X => a.y == b.y && a.z == b.z,
        SearchCoord::Y => a.x == b.x && a.z == b.z,
        SearchCoord::Z => a.x == b.x && a.y == b.y,
    }
}

/// The line through (x, y, z) along `axis` holds an `On` cell.
pub open spec fn line_has_on(
    g: Grid, n: int, x: int, y: int, z: int, axis: SearchCoord,
) -> bool {
    exists|j: int| 0 <= j < n && (#[trigger] line_entry(g, x, y, z, axis, j)) is On
}

/// The line through (x, y, z) along `axis` holds two `On` cells.
pub open spec fn line_has_two_on(
    g: Grid, n: int, x: int, y: int, z: int, axis: SearchCoord,
) -> bool {
    exists|j1: int, j2: int|
        0 <= j1 < j2 < n && (#[trigger] line_entry(g, x, y, z, axis, j1)) is On
            && (#[trigger] line_entry(g, x, y, z, axis, j2)) is On
}

/// Position `j` holds the first `On` cell of its line.
pub open spec fn is_first_on(
    g: Grid, x: int, y: int, z: int, axis: SearchCoord, j: int,
) -> bool {
    &&& line_entry(g, x, y, z, axis, j) is On
    &&& forall|m: int| 0 <= m < j ==> !((#[trigger] line_entry(g, x, y, z, axis, m)) is On)
}

/// Position `j` holds the second `On` cell of its line.
pub open spec fn is_second_on(
    g: Grid, x: int, y: int, z: int, axis: SearchCoord, j: int,
) -> bool {
    &&& line_entry(g, x, y, z, axis, j) is On
    &&& exists|i: int|
        0 <= i < j && #[trigger] is_first_on(g, x, y, z, axis, i)
            && (forall|m: int|
                i < m < j ==> !((#[trigger] line_entry(g, x, y, z, axis, m)) is On))
}

/// Scan order on cube points: by x, then y, then z.
pub open spec fn coord_lex_lt(a: Coordinate, b: Coordinate) -> bool {
    ||| a.x < b.x
    ||| (a.x == b.x && a.y < b.y)
    ||| (a.x == b.x && a.y == b.y && a.z < b.z)
}

/// The list holds the point (x, y, z).
pub open spec fn on_listed(v: Seq<Coordinate>, x: int, y: int, z: int) -> bool {
    exists|i: int| 0 <= i < v.len() && (#[trigger] v[i]).x == x && v[i].y == y && v[i].z == z
}

/// The point (x, y, z) comes before the scan position (a, b, c).
spec fn scanned_before(x: int, y: int, z: int, a: int, b: int, c: int) -> bool {
    ||| x < a
    ||| (x == a && y < b)
    ||| (x == a && y == b && z < c)
}

/// The list holds exactly the `On` cells before scan position (a, b, c),
/// in scan order.
spec fn collected(g: Grid, n: int, v: Seq<Coordinate>, a: int, b: int, c: int) -> bool {
    &&& forall|i: int|
        0 <= i < v.len() ==> {
            let p = #[trigger] v[i];
            &&& in_cube(n, p.x as int, p.y as int, p.z as int)
            &&& g[p.x as int][p.y as int][p.z as int] is On
            &&& scanned_before(p.x as int, p.y as int, p.z as int, a, b, c)
        }
    &&& forall|i: int, j: int|
        0 <= i < j < v.len() ==> coord_lex_lt(#[trigger] v[i], #[trigger] v[j])
    &&& forall|x: int, y: int, z: int|
        in_cube(n, x, y, z) && scanned_before(x, y, z, a, b, c) && (#[trigger] g[x][y][z]) is On
            ==> on_listed(v, x, y, z)
}

/// Cells on a line depend only on the two fixed components of its start
/// point, never on the component along the searched axis.
proof fn lemma_same_line_entries(g: Grid, a: Coordinate, x: int, y: int, z: int, axis: SearchCoord)
    requires
        ({
            match axis {
                SearchCoord::X => a.y == y && a.z == z,
                SearchCoord::Y => a.x == x && a.z == z,
                SearchCoord::Z => a.x == x && a.y == y,
            }
        }),
    ensures
        forall|m: int|
            (#[trigger] line_entry(g, a.x as int, a.y as int, a.z as int, axis, m))
                == line_entry(g, x, y, z, axis, m),
        forall|m: int|
            line_entry(g, a.x as int, a.y as int, a.z as int, axis, m)
                == (#[trigger] line_entry(g, x, y, z, axis, m)),
{
}

/// An n x n grid of n symbols in which, when valid, each symbol appears in
/// each row and each column exactly once.
pub struct LatinSquare {
    pub size: usize,
    pub square: Vec<Vec<usize>>,
}

impl View for LatinSquare {
    type V = Seq<Seq<usize>>;

    open spec fn view(&self) -> Seq<Seq<usize>> {
        Seq::new(self.square@.len(), |r: int| self.square@[r]@)
    }
}

/// The rows of a cyclic square are one-cell shifts of each other.
proof fn lemma_cyclic_is_latin(q: Seq<Seq<usize>>, n: int)
    requires
        2 <= n,
        q.len() == n,
        forall|r: int| 0 <= r < n ==> (#[trigger] q[r]).len() == n,
        forall|r: int, c: int|
            0 <= r < n && 0 <= c < n ==> #[trigger] sym_at(q, r, c) == cyclic_symbol(n, r, c),
    ensures
        is_latin_square(q, n),
{
    assert forall|r: int, s: int| 0 <= r < n && 0 <= s < n
        implies #[trigger] row_has_symbol(q, n, r, s) by {
        let c = if s >= r { s - r } else { s - r + n };
        assert(sym_at(q, r, c) == s);
    }
    assert forall|c: int, s: int| 0 <= c < n && 0 <= s < n
        implies #[trigger] col_has_symbol(q, n, c, s) by {
        let r = if s >= c { s - c } else { s - c + n };
        assert(sym_at(q, r, c) == s);
    }
}

impl LatinSquare {
    /// A square of the given order with every cell zero: a placeholder to
    /// be filled in, not itself a valid latin square.
    pub fn new_empty(dimensions: usize) -> (r: LatinSquare)
        ensures
            r.size == dimensions,
            r@.len() == dimensions,
            forall|a: int| 0 <= a < dimensions ==> (#[trigger] r@[a]).len() == dimensions,
            forall|a: int, b: int|
                0 <= a < dimensions && 0 <= b < dimensions ==> #[trigger] sym_at(r@, a, b) == 0,
    {
        let mut rows: Vec<Vec<usize>> = Vec::new();
        let mut i: usize = 0;
        while i < dimensions
            invariant
                i <= dimensions,
                rows@.len() == i,
                forall|a: int| 0 <= a < i ==> (#[trigger] rows@[a])@.len() == dimensions,
                forall|a: int, b: int|
                    0 <= a < i && 0 <= b < dimensions ==> #[trigger] rows@[a]@[b] == 0,
            decreases dimensions - i,
        {
            let mut row: Vec<usize> = Vec::new();
            let mut j: usize = 0;
            while j < dimensions
                invariant
                    j <= dimensions,
                    row@.len() == j,
                    forall|b: int| 0 <= b < j ==> #[trigger] row@[b] == 0,
                decreases dimensions - j,
            {
                row.push(0);
                j = j + 1;
            }
            rows.push(row);
            i = i + 1;
        }
        LatinSquare { size: dimensions, square: rows }
    }

    /// The canonical cyclic square: row r is r, r+1, ..., wrapping modulo
    /// the order. Orders 0 and 1 are rejected as invalid.
    pub fn new_cyclic(dimensions: usize) -> (r: Result<LatinSquare, LatinSquareError>)
        ensures
            match r {
                Ok(sq) => {
                    &&& dimensions >= 2
                    &&& sq.size == dimensions
                    &&& sq@.len() == dimensions
                    &&& forall|a: int, b: int|
                        0 <= a < dimensions && 0 <= b < dimensions
                            ==> #[trigger] sym_at(sq@, a, b)
                                == cyclic_symbol(dimensions as int, a, b)
                    &&& is_latin_square(sq@, dimensions as int)
                },
                Err(e) => dimensions < 2 && e is InvalidOrder,
            },
    {
        if dimensions < 2 {
            return Err(LatinSquareError::InvalidOrder);
        }
        let mut rows: Vec<Vec<usize>> = Vec::new();
        let mut i: usize = 0;
        while i < dimensions
            invariant
                2 <= dimensions,
                i <= dimensions,
                rows@.len() == i,
                forall|a: int| 0 <= a < i ==> (#[trigger] rows@[a])@.len() == dimensions,
                forall|a: int, b: int|
                    0 <= a < i && 0 <= b < dimensions
                        ==> #[trigger] rows@[a]@[b] as int == cyclic_symbol(dimensions as int, a, b),
            decreases dimensions - i,
        {
            let mut row: Vec<usize> = Vec::new();
            let mut j: usize = 0;
            while j < dimensions
                invariant
                    2 <= dimensions,
                    i < dimensions,
                    j <= dimensions,
                    row@.len() == j,
                    forall|b: int|
                        0 <= b < j
                            ==> #[trigger] row@[b] as int == cyclic_symbol(dimensions as int, i as int, b),
                decreases dimensions - j,
            {
                let s = if j < dimensions - i { i + j } else { j - (dimensions - i) };
                row.push(s);
                j = j + 1;
            }
            rows.push(row);
            i = i + 1;
        }
        let sq = LatinSquare { size: dimensions, square: rows };
        proof {
            lemma_cyclic_is_latin(sq@, dimensions as int);
        }
        Ok(sq)
    }

    /// A random latin square of the given order, drawn with the
    /// Jacobson-Matthews walk: build the cyclic cube, shuffle it, project
    /// it. Orders 0 and 1 are rejected; an `UnresolvedImproper` error would
    /// mean the walk's enormous cleanup budget ran out, which no practical
    /// run reaches.
    pub fn new_random(dimensions: usize) -> (r: Result<LatinSquare, LatinSquareError>)
        ensures
            match r {
                Ok(sq) => {
                    &&& dimensions >= 2
                    &&& sq.size == dimensions
                    &&& sq@.len() == dimensions
                    &&& is_latin_square(sq@, dimensions as int)
                },
                Err(e) => {
                    if dimensions < 2 { e is InvalidOrder } else { e is UnresolvedImproper }
                },
            },
    {
        let mut cube = match IncidenceCube::new_cyclic(dimensions) {
            Ok(c) => c,
            Err(e) => {
                return Err(e);
            },
        };
        if cube.shuffle() {
            Ok(cube.as_latin_square())
        } else {
            Err(LatinSquareError::UnresolvedImproper)
        }
    }
}

/// (i, j, l) is a corner of the 2 x 2 x 2 box spanned by (x1, y1, z1)
/// and (x2, y2, z2).
pub open spec fn is_flip_corner(
    i: int, j: int, l: int, x1: int, y1: int, z1: int, x2: int, y2: int, z2: int,
) -> bool {
    (i == x1 || i == x2) && (j == y1 || j == y2) && (l == z1 || l == z2)
}

/// One walk step from `pre` to `post`, with origin `o` and partner `p`:
/// the four corners of their box that take one coordinate from `p` an
/// even number of times each move one step up, the other four one step
/// down, every other cell and the size stay as they were, and the
/// improper record is re-read from the corner (p.x, p.y, p.z).
pub open spec fn is_move_step(
    pre: IncidenceCube, post: IncidenceCube, o: Coordinate, p: Coordinate,
) -> bool {
    let n = pre.size as int;
    let g0 = pre.grid();
    let g8 = post.grid();
    let x1 = o.x as int;
    let y1 = o.y as int;
    let z1 = o.z as int;
    let x2 = p.x as int;
    let y2 = p.y as int;
    let z2 = p.z as int;
    &&& post.size == pre.size
    &&& in_cube(n, x1, y1, z1)
    &&& in_cube(n, x2, y2, z2)
    &&& x1 != x2 && y1 != y2 && z1 != z2
    &&& (match pre.improper_cell {
        Option::Some(c) => o == c,
        Option::None => g0[x1][y1][z1] is Off,
    })
    &&& val_at(g8, x1, y1, z1) == val_at(g0, x1, y1, z1) + 1
    &&& val_at(g8, x1, y2, z2) == val_at(g0, x1, y2, z2) + 1
    &&& val_at(g8, x2, y2, z1) == val_at(g0, x2, y2, z1) + 1
    &&& val_at(g8, x2, y1, z2) == val_at(g0, x2, y1, z2) + 1
    &&& val_at(g8, x1, y1, z2) == val_at(g0, x1, y1, z2) - 1
    &&& val_at(g8, x1, y2, z1) == val_at(g0, x1, y2, z1) - 1
    &&& val_at(g8, x2, y1, z1) == val_at(g0, x2, y1, z1) - 1
    &&& val_at(g8, x2, y2, z2) == val_at(g0, x2, y2, z2) - 1
    &&& forall|i: int, j: int, l: int|
        in_cube(n, i, j, l) && !is_flip_corner(i, j, l, x1, y1, z1, x2, y2, z2)
            ==> #[trigger] post.grid()[i][j][l] == pre.grid()[i][j][l]
    &&& post.improper_cell == (if g8[x2][y2][z2] is Improper {
        Option::Some(p)
    } else {
        Option::<Coordinate>::None
    })
}

/// The line holds exactly one `On` cell; every other cell is `Off`.
pub open spec fn line_exactly_one_on(
    g: Grid, n: int, x: int, y: int, z: int, axis: SearchCoord,
) -> bool {
    exists|j: int|
        0 <= j < n && (#[trigger] line_entry(g, x, y, z, axis, j)) is On
            && (forall|m: int|
                0 <= m < n && m != j ==> (#[trigger] line_entry(g, x, y, z, axis, m)) is Off)
}

/// The three-dimensional representation of a latin square: `On` at
/// (x, y, z) means row x, column y holds symbol z.
///
/// A well-formed cube keeps every axis line at weight one and records the
/// at most one `Improper` cell in `improper_cell`; while that field is
/// `None` the cube is proper and encodes a valid square.
pub struct IncidenceCube {
    pub size: usize,
    pub cube: Vec<Vec<Vec<CubeEntry>>>,
    pub improper_cell: Option<Coordinate>,
}

/// The cube's cells are `On` exactly on the canonical cyclic square.
pub open spec fn is_cyclic_cube(c: IncidenceCube) -> bool {
    forall|x: int, y: int, z: int|
        in_cube(c.size as int, x, y, z)
            ==> ((#[trigger] c.grid()[x][y][z]) is On
                <==> z == cyclic_symbol(c.size as int, x, y))
}

/// The cell the cyclic construction puts at (x, y, z).
spec fn cyclic_entry(n: int, x: int, y: int, z: int) -> CubeEntry {
    if z == cyclic_symbol(n, x, y) { CubeEntry::On } else { CubeEntry::Off }
}

/// A grid whose cells are exactly the cyclic pattern has all lines at
/// weight one.
proof fn lemma_cyclic_lines(g: Grid, n: int)
    requires
        2 <= n,
        cube_shaped(g, n),
        forall|x: int, y: int, z: int|
            in_cube(n, x, y, z) ==> #[trigger] g[x][y][z] == cyclic_entry(n, x, y, z),
    ensures
        lines_ok(g, n),
        no_improper_at_all(g, n),
{
    assert forall|x: int, y: int, z: int, axis: SearchCoord|
        in_cube(n, x, y, z) implies #[trigger] line_sum(g, x, y, z, axis, n) == 1 by {
        match axis {
            SearchCoord::X => {
                let j = if y <= z { z - y } else { z - y + n };
                assert(g[j][y][z] == cyclic_entry(n, j, y, z));
                assert(line_entry(g, x, y, z, axis, j) is On);
                assert forall|m: int| 0 <= m < n && m != j
                    implies (#[trigger] line_entry(g, x, y, z, axis, m)) is Off by {
                    assert(g[m][y][z] == cyclic_entry(n, m, y, z));
                }
                lemma_line_single_on_sum(g, x, y, z, axis, n, j);
            },
            SearchCoord::Y => {
                let j = if x <= z { z - x } else { z - x + n };
                assert(g[x][j][z] == cyclic_entry(n, x, j, z));
                assert(line_entry(g, x, y, z, axis, j) is On);
                assert forall|m: int| 0 <= m < n && m != j
                    implies (#[trigger] line_entry(g, x, y, z, axis, m)) is Off by {
                    assert(g[x][m][z] == cyclic_entry(n, x, m, z));
                }
                lemma_line_single_on_sum(g, x, y, z, axis, n, j);
            },
            SearchCoord::Z => {
                let j = cyclic_symbol(n, x, y);
                assert(g[x][y][j] == cyclic_entry(n, x, y, j));
                assert(line_entry(g, x, y, z, axis, j) is On);
                assert forall|m: int| 0 <= m < n && m != j
                    implies (#[trigger] line_entry(g, x, y, z, axis, m)) is Off by {
                    assert(g[x][y][m] == cyclic_entry(n, x, y, m));
                }
                lemma_line_single_on_sum(g, x, y, z, axis, n, j);
            },
        }
    }
    assert forall|x: int, y: int, z: int| in_cube(n, x, y, z)
        implies !((#[trigger] g[x][y][z]) is Improper) by {
        assert(g[x][y][z] == cyclic_entry(n, x, y, z));
    }
}

impl IncidenceCube {
    /// The cube as pure data.
    pub open spec fn grid(self) -> Grid {
        Seq::new(
            self.cube@.len(),
            |x: int| Seq::new(self.cube@[x]@.len(), |y: int| self.cube@[x]@[y]@),
        )
    }

    /// The recorded improper cell matches the cells: none while the cube
    /// is proper, and exactly the one `Improper` cell otherwise.
    pub open spec fn improper_state_ok(self) -> bool {
        match self.improper_cell {
            Option::None => no_improper_at_all(self.grid(), self.size as int),
            Option::Some(c) => {
                &&& in_cube(self.size as int, c.x as int, c.y as int, c.z as int)
                &&& self.grid()[c.x as int][c.y as int][c.z as int] is Improper
                &&& improper_only_at(
                    self.grid(), self.size as int, c.x as int, c.y as int, c.z as int,
                )
            },
        }
    }

    /// The state every walk step preserves: a full box of order at least
    /// two, all axis lines at weight one, and a faithful improper record.
    pub open spec fn wf(self) -> bool {
        &&& self.size >= 2
        &&& cube_shaped(self.grid(), self.size as int)
        &&& lines_ok(self.grid(), self.size as int)
        &&& self.improper_state_ok()
    }

    /// Reads one cell.
    fn entry_at(&self, x: usize, y: usize, z: usize) -> (r: CubeEntry)
        requires
            cube_shaped(self.grid(), self.size as int),
            x < self.size,
            y < self.size,
            z < self.size,
        ensures
            r == self.grid()[x as int][y as int][z as int],
    {
        self.cube[x][y][z]
    }

    /// Writes one cell, leaving every other cell and the improper record
    /// as they were.
    fn set_cell(&mut self, x: usize, y: usize, z: usize, e: CubeEntry)
        requires
            cube_shaped(old(self).grid(), old(self).size as int),
            x < old(self).size,
            y < old(self).size,
            z < old(self).size,
        ensures
            final(self).size == old(self).size,
            final(self).improper_cell == old(self).improper_cell,
            cube_shaped(final(self).grid(), final(self).size as int),
            final(self).grid()[x as int][y as int][z as int] == e,
            forall|i: int, j: int, l: int|
                in_cube(old(self).size as int, i, j, l)
                    && !(i == x as int && j == y as int && l == z as int)
                    ==> #[trigger] final(self).grid()[i][j][l] == old(self).grid()[i][j][l],
    {
        proof {
            let n = self.size as int;
            assert(self.grid().len() == n);
            assert(self.cube@.len() == n);
            assert(self.grid()[x as int].len() == n);
            assert(self.cube@[x as int]@.len() == n);
            assert(self.grid()[x as int][y as int].len() == n);
            assert(self.cube@[x as int]@[y as int]@.len() == n);
        }
        self.cube[x][y][z] = e;
        proof {
            assert(self.cube@.len() == old(self).cube@.len());
            assert(self.cube@[x as int]@.len() == old(self).cube@[x as int]@.len());
            assert(self.cube@[x as int]@[y as int]@.len()
                == old(self).cube@[x as int]@[y as int]@.len());
            assert(self.cube@[x as int]@[y as int]@[z as int] == e);
            let n = old(self).size as int;
            assert forall|i: int, j: int, l: int|
                in_cube(n, i, j, l) && !(i == x as int && j == y as int && l == z as int)
                    implies #[trigger] self.grid()[i][j][l] == old(self).grid()[i][j][l] by {
                if i != x as int {
                    assert(self.cube@[i] == old(self).cube@[i]);
                } else if j != y as int {
                    assert(self.cube@[i]@[j] == old(self).cube@[i]@[j]);
                } else {
                    assert(self.cube@[i]@[j]@[l] == old(self).cube@[i]@[j]@[l]);
                }
            }
            assert forall|i: int| 0 <= i < n implies (#[trigger] self.grid()[i]).len() == n by {
                assert(old(self).grid()[i].len() == n);
                if i != x as int {
                    assert(self.cube@[i] == old(self).cube@[i]);
                } else {
                    assert(self.cube@[i]@.len() == old(self).cube@[i]@.len());
                }
            }
            assert forall|i: int, j: int| 0 <= i < n && 0 <= j < n
                implies (#[trigger] self.grid()[i][j]).len() == n by {
                assert(old(self).grid()[i][j].len() == n);
                if i != x as int {
                    assert(self.cube@[i] == old(self).cube@[i]);
                } else if j != y as int {
                    assert(self.cube@[i]@[j] == old(self).cube@[i]@[j]);
                } else {
                    assert(self.cube@[i]@[j]@.len() == old(self).cube@[i]@[j]@.len());
                }
            }
        }
    }

    /// A cube in the canonical cyclic configuration: `On` at (x, y, z)
    /// exactly when z is the cyclic symbol of row x, column y. Orders 0
    /// and 1 are rejected as invalid.
    pub fn new_cyclic(dimensions: usize) -> (r: Result<IncidenceCube, LatinSquareError>)
        ensures
            match r {
                Ok(c) => {
                    &&& dimensions >= 2
                    &&& c.size == dimensions
                    &&& c.improper_cell is None
                    &&& c.wf()
                    &&& is_cyclic_cube(c)
                },
                Err(e) => dimensions < 2 && e is InvalidOrder,
            },
    {
        if dimensions < 2 {
            return Err(LatinSquareError::InvalidOrder);
        }
        let n = dimensions;
        let ghost ni = n as int;
        let mut planes: Vec<Vec<Vec<CubeEntry>>> = Vec::new();
        let mut i: usize = 0;
        while i < n
            invariant
                2 <= n,
                i <= n,
                planes@.len() == i,
                forall|a: int| 0 <= a < i ==> (#[trigger] planes@[a])@.len() == n,
                forall|a: int, b: int|
                    0 <= a < i && 0 <= b < n ==> (#[trigger] planes@[a]@[b])@.len() == n,
                forall|a: int, b: int, c: int|
                    0 <= a < i && 0 <= b < n && 0 <= c < n
                        ==> #[trigger] planes@[a]@[b]@[c] == cyclic_entry(n as int, a, b, c),
            decreases n - i,
        {
            let mut rows: Vec<Vec<CubeEntry>> = Vec::new();
            let mut j: usize = 0;
            while j < n
                invariant
                    2 <= n,
                    i < n,
                    j <= n,
                    rows@.len() == j,
                    forall|b: int| 0 <= b < j ==> (#[trigger] rows@[b])@.len() == n,
                    forall|b: int, c: int|
                        0 <= b < j && 0 <= c < n
                            ==> #[trigger] rows@[b]@[c] == cyclic_entry(n as int, i as int, b, c),
                decreases n - j,
            {
                let s = if j < n - i { i + j } else { j - (n - i) };
                let mut line: Vec<CubeEntry> = Vec::new();
                let mut k: usize = 0;
                while k < n
                    invariant
                        k <= n,
                        line@.len() == k,
                        s as int == cyclic_symbol(n as int, i as int, j as int),
                        forall|c: int|
                            0 <= c < k
                                ==> #[trigger] line@[c] == cyclic_entry(n as int, i as int, j as int, c),
                    decreases n - k,
                {
                    if k == s {
                        line.push(CubeEntry::On);
                    } else {
                        line.push(CubeEntry::Off);
                    }
                    k = k + 1;
                }
                rows.push(line);
                j = j + 1;
            }
            planes.push(rows);
            i = i + 1;
        }
        let c = IncidenceCube { size: n, cube: planes, improper_cell: None };
        proof {
            assert forall|a: int, b: int, d: int| in_cube(ni, a, b, d)
                implies #[trigger] c.grid()[a][b][d] == cyclic_entry(ni, a, b, d) by {}
            lemma_cyclic_lines(c.grid(), ni);
        }
        Ok(c)
    }

    /// Scans upward along `search_coord` from `search_pos` until an `On`
    /// cell is found or the cube's bound is passed. The two fixed
    /// components of `search_pos` stay as given; the searched one ends on
    /// the hit, or at the bound when there is none.
    #[verifier::loop_isolation(false)]
    pub fn find_on_cell_along_axis(
        &self,
        search_pos: &mut Coordinate,
        search_coord: SearchCoord,
    ) -> (r: Option<usize>)
        requires
            cube_shaped(self.grid(), self.size as int),
            line_start_ok(*old(search_pos), search_coord, self.size as int),
            old(search_pos).axis_val(search_coord) <= self.size,
        ensures
            same_line(*old(search_pos), *final(search_pos), search_coord),
            ({
                let g = self.grid();
                let n = self.size as int;
                let o = *old(search_pos);
                let start = o.axis_val(search_coord) as int;
                match r {
                    Option::Some(j) => {
                        &&& start <= j < n
                        &&& final(search_pos).axis_val(search_coord) == j
                        &&& line_entry(g, o.x as int, o.y as int, o.z as int, search_coord, j as int) is On
                        &&& forall|m: int|
                            start <= m < j ==> !((#[trigger] line_entry(
                                g, o.x as int, o.y as int, o.z as int, search_coord, m,
                            )) is On)
                    },
                    Option::None => {
                        &&& final(search_pos).axis_val(search_coord) == n
                        &&& forall|m: int|
                            start <= m < n ==> !((#[trigger] line_entry(
                                g, o.x as int, o.y as int, o.z as int, search_coord, m,
                            )) is On)
                    },
                }
            }),
    {
        let n = self.size;
        let ghost o = *search_pos;
        let ghost start = o.axis_val(search_coord) as int;
        while search_pos.search_axis(search_coord) < n
            invariant
                same_line(o, *search_pos, search_coord),
                line_start_ok(*search_pos, search_coord, n as int),
                start <= search_pos.axis_val(search_coord) <= n,
                forall|m: int|
                    start <= m < search_pos.axis_val(search_coord)
                        ==> !((#[trigger] line_entry(
                            self.grid(), o.x as int, o.y as int, o.z as int, search_coord, m,
                        )) is On),
            decreases n - search_pos.axis_val(search_coord),
        {
            let e = self.entry_at(search_pos.x, search_pos.y, search_pos.z);
            let ghost cur = search_pos.axis_val(search_coord) as int;
            proof {
                assert(line_entry(
                    self.grid(), o.x as int, o.y as int, o.z as int, search_coord, cur,
                ) == self.grid()[search_pos.x as int][search_pos.y as int][search_pos.z as int]);
            }
            if let CubeEntry::On = e {
                return Some(search_pos.search_axis(search_coord));
            }
            search_pos.increment(search_coord);
        }
        None
    }

    /// Finds an `On` position on the line through (x, y, z) along
    /// `search_coord`, ignoring the component of the start on that axis.
    /// With `Some(true)` the first `On` cell is taken, with `Some(false)`
    /// the second; with `None` a fair coin picks between the two.
    #[verifier::loop_isolation(false)]
    pub fn pick_coordinate(
        &self,
        x: usize,
        y: usize,
        z: usize,
        search_coord: SearchCoord,
        take_first: Option<bool>,
    ) -> (r: usize)
        requires
            cube_shaped(self.grid(), self.size as int),
            x < self.size,
            y < self.size,
            z < self.size,
            ({
                let g = self.grid();
                let n = self.size as int;
                match take_first {
                    Option::Some(true) => line_has_on(g, n, x as int, y as int, z as int, search_coord),
                    _ => line_has_two_on(g, n, x as int, y as int, z as int, search_coord),
                }
            }),
        ensures
            r < self.size,
            ({
                let g = self.grid();
                match take_first {
                    Option::Some(true) => is_first_on(g, x as int, y as int, z as int, search_coord, r as int),
                    Option::Some(false) => is_second_on(g, x as int, y as int, z as int, search_coord, r as int),
                    Option::None => is_first_on(g, x as int, y as int, z as int, search_coord, r as int)
                        || is_second_on(g, x as int, y as int, z as int, search_coord, r as int),
                }
            }),
    {
        let mut search_pos = Coordinate::init_for_search(x, y, z, search_coord);
        let ghost o = search_pos;
        let ghost g = self.grid();
        let ghost n = self.size as int;
        proof {
            lemma_same_line_entries(g, o, x as int, y as int, z as int, search_coord);
        }
        let taken_first = match take_first {
            Some(b) => b,
            None => rng::coin_flip(),
        };
        let first_result = self.find_on_cell_along_axis(&mut search_pos, search_coord);
        match (first_result, taken_first) {
            (Some(res), true) => {
                proof {
                    assert forall|m: int| 0 <= m < res implies !((#[trigger] line_entry(
                        g, x as int, y as int, z as int, search_coord, m,
                    )) is On) by {
                        assert(!(line_entry(
                            g, o.x as int, o.y as int, o.z as int, search_coord, m,
                        ) is On));
                    }
                    assert(is_first_on(
                        g, x as int, y as int, z as int, search_coord, res as int,
                    ));
                }
                res
            },
            (_, false) => {
                proof {
                    if first_result is None {
                        let (b1, b2) = choose|b1: int, b2: int|
                            0 <= b1 < b2 < n && (#[trigger] line_entry(
                                g, x as int, y as int, z as int, search_coord, b1,
                            )) is On && (#[trigger] line_entry(
                                g, x as int, y as int, z as int, search_coord, b2,
                            )) is On;
                        assert(!(line_entry(
                            g, o.x as int, o.y as int, o.z as int, search_coord, b1,
                        ) is On));
                        assert(false);
                    }
                }
                search_pos.increment(search_coord);
                let ghost o2 = search_pos;
                let ghost j1 = o2.axis_val(search_coord) as int - 1;
                let second_result = self.find_on_cell_along_axis(&mut search_pos, search_coord);
                proof {
                    lemma_same_line_entries(g, o2, x as int, y as int, z as int, search_coord);
                    assert(line_entry(g, x as int, y as int, z as int, search_coord, j1) is On);
                    assert forall|m: int| 0 <= m < j1 implies !((#[trigger] line_entry(
                        g, x as int, y as int, z as int, search_coord, m,
                    )) is On) by {
                        assert(!(line_entry(
                            g, o.x as int, o.y as int, o.z as int, search_coord, m,
                        ) is On));
                    }
                    if second_result is None {
                        // a second On cell lies beyond the first hit, so the
                        // second scan cannot run dry
                        let (a1, a2) = choose|a1: int, a2: int|
                            0 <= a1 < a2 < n && (#[trigger] line_entry(
                                g, x as int, y as int, z as int, search_coord, a1,
                            )) is On && (#[trigger] line_entry(
                                g, x as int, y as int, z as int, search_coord, a2,
                            )) is On;
                        assert(a1 >= j1);
                        assert(a2 >= j1 + 1);
                        assert(!(line_entry(
                            g, o2.x as int, o2.y as int, o2.z as int, search_coord, a2,
                        ) is On));
                        assert(false);
                    }
                }
                match second_result {
                    Some(res) => {
                        proof {
                            assert(line_entry(
                                g, x as int, y as int, z as int, search_coord, res as int,
                            ) is On);
                            assert(is_first_on(g, x as int, y as int, z as int, search_coord, j1));
                            assert forall|m: int| j1 < m < res implies !((#[trigger] line_entry(
                                g, x as int, y as int, z as int, search_coord, m,
                            )) is On) by {
                                assert(!(line_entry(
                                    g, o2.x as int, o2.y as int, o2.z as int, search_coord, m,
                                ) is On));
                            }
                            assert(is_second_on(
                                g, x as int, y as int, z as int, search_coord, res as int,
                            ));
                        }
                        res
                    },
                    None => 0,
                }
            },
            _ => {
                proof {
                    match take_first {
                        Option::Some(true) => {
                            let j = choose|j: int|
                                0 <= j < n && (#[trigger] line_entry(
                                    g, x as int, y as int, z as int, search_coord, j,
                                )) is On;
                            assert(!(line_entry(
                                g, o.x as int, o.y as int, o.z as int, search_coord, j,
                            ) is On));
                            assert(false);
                        },
                        _ => {
                            let (b1, b2) = choose|b1: int, b2: int|
                                0 <= b1 < b2 < n && (#[trigger] line_entry(
                                    g, x as int, y as int, z as int, search_coord, b1,
                                )) is On && (#[trigger] line_entry(
                                    g, x as int, y as int, z as int, search_coord, b2,
                                )) is On;
                            assert(!(line_entry(
                                g, o.x as int, o.y as int, o.z as int, search_coord, b1,
                            ) is On));
                            assert(false);
                        },
                    }
                }
                0
            },
        }
    }

    /// A random `Off` cell of a well-formed cube: rejection sampling with
    /// fresh uniform draws, falling back after a generous number of tries
    /// to a scan of two fixed lines, one of which always holds an `Off`
    /// cell.
    #[verifier::loop_isolation(false)]
    fn find_off_cell(&self) -> (c: Coordinate)
        requires
            self.wf(),
        ensures
            c.x < self.size,
            c.y < self.size,
            c.z < self.size,
            self.grid()[c.x as int][c.y as int][c.z as int] is Off,
    {
        let n = self.size;
        let mut tries: usize = 10000;
        while tries > 0
            decreases tries,
        {
            let cx = rng::index_below(n);
            let cy = rng::index_below(n);
            let cz = rng::index_below(n);
            if let CubeEntry::Off = self.entry_at(cx, cy, cz) {
                return Coordinate { x: cx, y: cy, z: cz };
            }
            tries = tries - 1;
        }
        let mut z1: usize = 0;
        while z1 < n
            invariant
                z1 <= n,
                forall|m: int| 0 <= m < z1 ==> !((#[trigger] self.grid()[0][0][m]) is Off),
            decreases n - z1,
        {
            if let CubeEntry::Off = self.entry_at(0, 0, z1) {
                return Coordinate { x: 0, y: 0, z: z1 };
            }
            z1 = z1 + 1;
        }
        let mut z2: usize = 0;
        while z2 < n
            invariant
                z2 <= n,
                forall|m: int| 0 <= m < n ==> !((#[trigger] self.grid()[0][0][m]) is Off),
                forall|m: int| 0 <= m < z2 ==> !((#[trigger] self.grid()[1][1][m]) is Off),
            decreases n - z2,
        {
            if let CubeEntry::Off = self.entry_at(1, 1, z2) {
                return Coordinate { x: 1, y: 1, z: z2 };
            }
            z2 = z2 + 1;
        }
        proof {
            lemma_off_exists_on_diag(self);
            assert(false);
        }
        Coordinate { x: 0, y: 0, z: 0 }
    }

    /// Toggles one cell a step up, leaving everything else as it was.
    fn raise_cell(&mut self, x: usize, y: usize, z: usize)
        requires
            cube_shaped(old(self).grid(), old(self).size as int),
            x < old(self).size,
            y < old(self).size,
            z < old(self).size,
            !(old(self).grid()[x as int][y as int][z as int] is On),
        ensures
            final(self).size == old(self).size,
            final(self).improper_cell == old(self).improper_cell,
            cube_shaped(final(self).grid(), final(self).size as int),
            val_at(final(self).grid(), x as int, y as int, z as int)
                == val_at(old(self).grid(), x as int, y as int, z as int) + 1,
            forall|i: int, j: int, l: int|
                in_cube(old(self).size as int, i, j, l)
                    && !(i == x as int && j == y as int && l == z as int)
                    ==> #[trigger] final(self).grid()[i][j][l] == old(self).grid()[i][j][l],
    {
        let e = self.entry_at(x, y, z);
        let t = e.toggle_on();
        self.set_cell(x, y, z, t);
    }

    /// Toggles one cell a step down, leaving everything else as it was.
    fn lower_cell(&mut self, x: usize, y: usize, z: usize)
        requires
            cube_shaped(old(self).grid(), old(self).size as int),
            x < old(self).size,
            y < old(self).size,
            z < old(self).size,
            !(old(self).grid()[x as int][y as int][z as int] is Improper),
        ensures
            final(self).size == old(self).size,
            final(self).improper_cell == old(self).improper_cell,
            cube_shaped(final(self).grid(), final(self).size as int),
            val_at(final(self).grid(), x as int, y as int, z as int)
                == val_at(old(self).grid(), x as int, y as int, z as int) - 1,
            forall|i: int, j: int, l: int|
                in_cube(old(self).size as int, i, j, l)
                    && !(i == x as int && j == y as int && l == z as int)
                    ==> #[trigger] final(self).grid()[i][j][l] == old(self).grid()[i][j][l],
    {
        let e = self.entry_at(x, y, z);
        let t = e.toggle_off();
        self.set_cell(x, y, z, t);
    }

    /// One step of the walk: picks an origin (the recorded improper cell,
    /// or a freshly sampled `Off` cell of a proper cube), finds one `On`
    /// partner on each of the origin's three lines, flips the eight
    /// corners of the box they span, and re-records improperness from the
    /// last corner. Every axis line keeps weight one, so the cube stays
    /// well formed with at most one flaw.
    #[verifier::rlimit(100)]
    pub fn move_cell(&mut self)
        requires
            old(self).wf(),
        ensures
            final(self).wf(),
            final(self).size == old(self).size,
            exists|o: Coordinate, p: Coordinate|
                #[trigger] is_move_step(*old(self), *final(self), o, p),
    {
        let n = self.size;
        let ghost ni = n as int;
        let ghost g0 = self.grid();
        let (origin, take_first): (Coordinate, Option<bool>) = match self.improper_cell {
            Some(cell) => (cell, None),
            None => (self.find_off_cell(), Some(true)),
        };
        let ghost x1 = origin.x as int;
        let ghost y1 = origin.y as int;
        let ghost z1 = origin.z as int;
        proof {
            if take_first is None {
                lemma_improper_origin_lines(g0, ni, x1, y1, z1);
            } else {
                lemma_proper_origin_lines(g0, ni, x1, y1, z1);
            }
        }
        let px = self.pick_coordinate(0, origin.y, origin.z, SearchCoord::X, take_first);
        let py = self.pick_coordinate(origin.x, 0, origin.z, SearchCoord::Y, take_first);
        let pz = self.pick_coordinate(origin.x, origin.y, 0, SearchCoord::Z, take_first);
        let ghost x2 = px as int;
        let ghost y2 = py as int;
        let ghost z2 = pz as int;
        proof {
            assert(g0[x2][y1][z1] is On);
            assert(g0[x1][y2][z1] is On);
            assert(g0[x1][y1][z2] is On);
            // the origin is Off or Improper, so the partners differ from it
            assert(x1 != x2 && y1 != y2 && z1 != z2);
            // the three raised corners other than the origin are Off: each
            // lies on a line of weight one that misses the improper cell
            // and already shows its one On cell
            assert forall|m: int| 0 <= m < ni
                implies #[trigger] line_val(g0, x1, y2, 0, SearchCoord::Z, m) >= 0 by {
                assert(!(g0[x1][y2][m] is Improper));
            }
            lemma_line_unique_on(g0, x1, y2, 0, SearchCoord::Z, ni, z1);
            assert(line_entry(g0, x1, y2, 0, SearchCoord::Z, z2) is Off);
            assert(g0[x1][y2][z2] is Off);
            assert forall|m: int| 0 <= m < ni
                implies #[trigger] line_val(g0, x2, y1, 0, SearchCoord::Z, m) >= 0 by {
                assert(!(g0[x2][y1][m] is Improper));
            }
            lemma_line_unique_on(g0, x2, y1, 0, SearchCoord::Z, ni, z1);
            assert(line_entry(g0, x2, y1, 0, SearchCoord::Z, z2) is Off);
            assert(g0[x2][y1][z2] is Off);
            assert forall|m: int| 0 <= m < ni
                implies #[trigger] line_val(g0, 0, y2, z1, SearchCoord::X, m) >= 0 by {
                assert(!(g0[m][y2][z1] is Improper));
            }
            lemma_line_unique_on(g0, 0, y2, z1, SearchCoord::X, ni, x1);
            assert(line_entry(g0, 0, y2, z1, SearchCoord::X, x2) is Off);
            assert(g0[x2][y2][z1] is Off);
            // the eighth corner is never the improper cell
            assert(!(g0[x2][y2][z2] is Improper));
        }
        self.raise_cell(origin.x, origin.y, origin.z);
        let ghost g1 = self.grid();
        proof { lemma_line_sums_update(g0, g1, ni, x1, y1, z1); }
        self.raise_cell(origin.x, py, pz);
        let ghost g2 = self.grid();
        proof { lemma_line_sums_update(g1, g2, ni, x1, y2, z2); }
        self.raise_cell(px, py, origin.z);
        let ghost g3 = self.grid();
        proof { lemma_line_sums_update(g2, g3, ni, x2, y2, z1); }
        self.raise_cell(px, origin.y, pz);
        let ghost g4 = self.grid();
        proof { lemma_line_sums_update(g3, g4, ni, x2, y1, z2); }
        self.lower_cell(origin.x, origin.y, pz);
        let ghost g5 = self.grid();
        proof { lemma_line_sums_update(g4, g5, ni, x1, y1, z2); }
        self.lower_cell(origin.x, py, origin.z);
        let ghost g6 = self.grid();
        proof { lemma_line_sums_update(g5, g6, ni, x1, y2, z1); }
        self.lower_cell(px, origin.y, origin.z);
        let ghost g7 = self.grid();
        proof { lemma_line_sums_update(g6, g7, ni, x2, y1, z1); }
        self.lower_cell(px, py, pz);
        let ghost g8 = self.grid();
        proof { lemma_line_sums_update(g7, g8, ni, x2, y2, z2); }
        proof {
            assert forall|x: int, y: int, z: int, axis: SearchCoord|
                in_cube(ni, x, y, z) implies #[trigger] line_sum(g8, x, y, z, axis, ni) == 1 by {
                assert(line_sum(g0, x, y, z, axis, ni) == 1);
                assert(line_sum(g1, x, y, z, axis, ni) == line_sum(g0, x, y, z, axis, ni)
                    + if line_hits(x, y, z, axis, ni, x1, y1, z1) {
                        val_at(g1, x1, y1, z1) - val_at(g0, x1, y1, z1)
                    } else { 0int });
                assert(line_sum(g2, x, y, z, axis, ni) == line_sum(g1, x, y, z, axis, ni)
                    + if line_hits(x, y, z, axis, ni, x1, y2, z2) {
                        val_at(g2, x1, y2, z2) - val_at(g1, x1, y2, z2)
                    } else { 0int });
                assert(line_sum(g3, x, y, z, axis, ni) == line_sum(g2, x, y, z, axis, ni)
                    + if line_hits(x, y, z, axis, ni, x2, y2, z1) {
                        val_at(g3, x2, y2, z1) - val_at(g2, x2, y2, z1)
                    } else { 0int });
                assert(line_sum(g4, x, y, z, axis, ni) == line_sum(g3, x, y, z, axis, ni)
                    + if line_hits(x, y, z, axis, ni, x2, y1, z2) {
                        val_at(g4, x2, y1, z2) - val_at(g3, x2, y1, z2)
                    } else { 0int });
                assert(line_sum(g5, x, y, z, axis, ni) == line_sum(g4, x, y, z, axis, ni)
                    + if line_hits(x, y, z, axis, ni, x1, y1, z2) {
                        val_at(g5, x1, y1, z2) - val_at(g4, x1, y1, z2)
                    } else { 0int });
                assert(line_sum(g6, x, y, z, axis, ni) == line_sum(g5, x, y, z, axis, ni)
                    + if line_hits(x, y, z, axis, ni, x1, y2, z1) {
                        val_at(g6, x1, y2, z1) - val_at(g5, x1, y2, z1)
                    } else { 0int });
                assert(line_sum(g7, x, y, z, axis, ni) == line_sum(g6, x, y, z, axis, ni)
                    + if line_hits(x, y, z, axis, ni, x2, y1, z1) {
                        val_at(g7, x2, y1, z1) - val_at(g6, x2, y1, z1)
                    } else { 0int });
                assert(line_sum(g8, x, y, z, axis, ni) == line_sum(g7, x, y, z, axis, ni)
                    + if line_hits(x, y, z, axis, ni, x2, y2, z2) {
                        val_at(g8, x2, y2, z2) - val_at(g7, x2, y2, z2)
                    } else { 0int });
            }
            assert(lines_ok(g8, ni));
        }
        let last = self.entry_at(px, py, pz);
        proof {
            // every cell away from the eight corners kept its old value,
            // and each corner's new value is known
            assert forall|x: int, y: int, z: int|
                in_cube(ni, x, y, z) && !(x == x2 && y == y2 && z == z2)
                    implies !((#[trigger] g8[x][y][z]) is Improper) by {
                let corner1 = x == x1 && y == y1 && z == z1;
                let corner2 = x == x1 && y == y2 && z == z2;
                let corner3 = x == x2 && y == y2 && z == z1;
                let corner4 = x == x2 && y == y1 && z == z2;
                let corner5 = x == x1 && y == y1 && z == z2;
                let corner6 = x == x1 && y == y2 && z == z1;
                let corner7 = x == x2 && y == y1 && z == z1;
                if corner1 || corner2 || corner3 || corner4 {
                    assert(val_at(g8, x, y, z) >= 0);
                } else if corner5 || corner6 || corner7 {
                    assert(val_at(g8, x, y, z) == 0);
                } else {
                    assert(g8[x][y][z] == g7[x][y][z]);
                    assert(g7[x][y][z] == g6[x][y][z]);
                    assert(g6[x][y][z] == g5[x][y][z]);
                    assert(g5[x][y][z] == g4[x][y][z]);
                    assert(g4[x][y][z] == g3[x][y][z]);
                    assert(g3[x][y][z] == g2[x][y][z]);
                    assert(g2[x][y][z] == g1[x][y][z]);
                    assert(g1[x][y][z] == g0[x][y][z]);
                    assert(!(g0[x][y][z] is Improper));
                }
            }
        }
        if let CubeEntry::Improper = last {
            self.improper_cell = Some(Coordinate { x: px, y: py, z: pz });
        } else {
            self.improper_cell = None;
        }
        proof {
            assert(self.grid() == g8);
            assert(self.wf());
            // each corner is touched by exactly one of the eight toggles
            assert(val_at(g1, x1, y1, z1) == val_at(g0, x1, y1, z1) + 1);
            assert(g2[x1][y1][z1] == g1[x1][y1][z1]);
            assert(g3[x1][y1][z1] == g2[x1][y1][z1]);
            assert(g4[x1][y1][z1] == g3[x1][y1][z1]);
            assert(g5[x1][y1][z1] == g4[x1][y1][z1]);
            assert(g6[x1][y1][z1] == g5[x1][y1][z1]);
            assert(g7[x1][y1][z1] == g6[x1][y1][z1]);
            assert(g8[x1][y1][z1] == g7[x1][y1][z1]);
            assert(val_at(g8, x1, y1, z1) == val_at(g0, x1, y1, z1) + 1);
            assert(g1[x1][y2][z2] == g0[x1][y2][z2]);
            assert(val_at(g2, x1, y2, z2) == val_at(g1, x1, y2, z2) + 1);
            assert(g3[x1][y2][z2] == g2[x1][y2][z2]);
            assert(g4[x1][y2][z2] == g3[x1][y2][z2]);
            assert(g5[x1][y2][z2] == g4[x1][y2][z2]);
            assert(g6[x1][y2][z2] == g5[x1][y2][z2]);
            assert(g7[x1][y2][z2] == g6[x1][y2][z2]);
            assert(g8[x1][y2][z2] == g7[x1][y2][z2]);
            assert(val_at(g8, x1, y2, z2) == val_at(g0, x1, y2, z2) + 1);
            assert(g1[x2][y2][z1] == g0[x2][y2][z1]);
            assert(g2[x2][y2][z1] == g1[x2][y2][z1]);
            assert(val_at(g3, x2, y2, z1) == val_at(g2, x2, y2, z1) + 1);
            assert(g4[x2][y2][z1] == g3[x2][y2][z1]);
            assert(g5[x2][y2][z1] == g4[x2][y2][z1]);
            assert(g6[x2][y2][z1] == g5[x2][y2][z1]);
            assert(g7[x2][y2][z1] == g6[x2][y2][z1]);
            assert(g8[x2][y2][z1] == g7[x2][y2][z1]);
            assert(val_at(g8, x2, y2, z1) == val_at(g0, x2, y2, z1) + 1);
            assert(g1[x2][y1][z2] == g0[x2][y1][z2]);
            assert(g2[x2][y1][z2] == g1[x2][y1][z2]);
            assert(g3[x2][y1][z2] == g2[x2][y1][z2]);
            assert(val_at(g4, x2, y1, z2) == val_at(g3, x2, y1, z2) + 1);
            assert(g5[x2][y1][z2] == g4[x2][y1][z2]);
            assert(g6[x2][y1][z2] == g5[x2][y1][z2]);
            assert(g7[x2][y1][z2] == g6[x2][y1][z2]);
            assert(g8[x2][y1][z2] == g7[x2][y1][z2]);
            assert(val_at(g8, x2, y1, z2) == val_at(g0, x2, y1, z2) + 1);
            assert(g1[x1][y1][z2] == g0[x1][y1][z2]);
            assert(g2[x1][y1][z2] == g1[x1][y1][z2]);
            assert(g3[x1][y1][z2] == g2[x1][y1][z2]);
            assert(g4[x1][y1][z2] == g3[x1][y1][z2]);
            assert(val_at(g5, x1, y1, z2) == val_at(g4, x1, y1, z2) - 1);
            assert(g6[x1][y1][z2] == g5[x1][y1][z2]);
            assert(g7[x1][y1][z2] == g6[x1][y1][z2]);
            assert(g8[x1][y1][z2] == g7[x1][y1][z2]);
            assert(val_at(g8, x1, y1, z2) == val_at(g0, x1, y1, z2) - 1);
            assert(g1[x1][y2][z1] == g0[x1][y2][z1]);
            assert(g2[x1][y2][z1] == g1[x1][y2][z1]);
            assert(g3[x1][y2][z1] == g2[x1][y2][z1]);
            assert(g4[x1][y2][z1] == g3[x1][y2][z1]);
            assert(g5[x1][y2][z1] == g4[x1][y2][z1]);
            assert(val_at(g6, x1, y2, z1) == val_at(g5, x1, y2, z1) - 1);
            assert(g7[x1][y2][z1] == g6[x1][y2][z1]);
            assert(g8[x1][y2][z1] == g7[x1][y2][z1]);
            assert(val_at(g8, x1, y2, z1) == val_at(g0, x1, y2, z1) - 1);
            assert(g1[x2][y1][z1] == g0[x2][y1][z1]);
            assert(g2[x2][y1][z1] == g1[x2][y1][z1]);
            assert(g3[x2][y1][z1] == g2[x2][y1][z1]);
            assert(g4[x2][y1][z1] == g3[x2][y1][z1]);
            assert(g5[x2][y1][z1] == g4[x2][y1][z1]);
            assert(g6[x2][y1][z1] == g5[x2][y1][z1]);
            assert(val_at(g7, x2, y1, z1) == val_at(g6, x2, y1, z1) - 1);
            assert(g8[x2][y1][z1] == g7[x2][y1][z1]);
            assert(val_at(g8, x2, y1, z1) == val_at(g0, x2, y1, z1) - 1);
            assert(g1[x2][y2][z2] == g0[x2][y2][z2]);
            assert(g2[x2][y2][z2] == g1[x2][y2][z2]);
            assert(g3[x2][y2][z2] == g2[x2][y2][z2]);
            assert(g4[x2][y2][z2] == g3[x2][y2][z2]);
            assert(g5[x2][y2][z2] == g4[x2][y2][z2]);
            assert(g6[x2][y2][z2] == g5[x2][y2][z2]);
            assert(g7[x2][y2][z2] == g6[x2][y2][z2]);
            assert(val_at(g8, x2, y2, z2) == val_at(g7, x2, y2, z2) - 1);
            assert(val_at(g8, x2, y2, z2) == val_at(g0, x2, y2, z2) - 1);
            assert forall|i: int, j: int, l: int|
                in_cube(ni, i, j, l) && !is_flip_corner(i, j, l, x1, y1, z1, x2, y2, z2)
                    implies #[trigger] g8[i][j][l] == g0[i][j][l] by {
                assert(g8[i][j][l] == g7[i][j][l]);
                assert(g7[i][j][l] == g6[i][j][l]);
                assert(g6[i][j][l] == g5[i][j][l]);
                assert(g5[i][j][l] == g4[i][j][l]);
                assert(g4[i][j][l] == g3[i][j][l]);
                assert(g3[i][j][l] == g2[i][j][l]);
                assert(g2[i][j][l] == g1[i][j][l]);
                assert(g1[i][j][l] == g0[i][j][l]);
            }
            let pc = Coordinate { x: px, y: py, z: pz };
            assert(is_move_step(*old(self), *self, origin, pc));
        }
    }

    /// Mixes the cube with one walk step per cell (n^3 in all), then keeps
    /// stepping until the cube is proper again. The cleanup phase runs
    /// under an astronomically large step budget; the result says whether
    /// the cube ended proper, which in practice it always does.
    #[verifier::loop_isolation(false)]
    pub fn shuffle(&mut self) -> (proper: bool)
        requires
            old(self).wf(),
        ensures
            final(self).wf(),
            final(self).size == old(self).size,
            proper <==> final(self).improper_cell is None,
    {
        let n = self.size;
        let mut a: usize = 0;
        while a < n
            invariant
                a <= n,
                self.wf(),
                self.size == n,
            decreases n - a,
        {
            let mut b: usize = 0;
            while b < n
                invariant
                    b <= n,
                    self.wf(),
                    self.size == n,
                decreases n - b,
            {
                let mut c: usize = 0;
                while c < n
                    invariant
                        c <= n,
                        self.wf(),
                        self.size == n,
                    decreases n - c,
                {
                    self.move_cell();
                    c = c + 1;
                }
                b = b + 1;
            }
            a = a + 1;
        }
        let mut budget: u64 = u64::MAX;
        while budget > 0 && self.improper_cell.is_some()
            invariant
                self.wf(),
                self.size == n,
            decreases budget,
        {
            self.move_cell();
            budget = budget - 1;
        }
        self.improper_cell.is_none()
    }

    /// Reads a proper cube down to its two-dimensional square: the symbol
    /// at (x, y) is the z of the one `On` cell on that line.
    #[verifier::loop_isolation(false)]
    pub fn as_latin_square(&self) -> (r: LatinSquare)
        requires
            self.wf(),
            self.improper_cell is None,
        ensures
            r.size == self.size,
            r@.len() == self.size,
            forall|a: int| 0 <= a < self.size ==> (#[trigger] r@[a]).len() == self.size,
            forall|a: int, b: int|
                0 <= a < self.size && 0 <= b < self.size
                    ==> 0 <= #[trigger] sym_at(r@, a, b) < self.size
                        && self.grid()[a][b][sym_at(r@, a, b)] is On,
            is_latin_square(r@, self.size as int),
    {
        let n = self.size;
        let ghost g = self.grid();
        let mut rows: Vec<Vec<usize>> = Vec::new();
        let mut i: usize = 0;
        while i < n
            invariant
                i <= n,
                rows@.len() == i,
                forall|a: int| 0 <= a < i ==> (#[trigger] rows@[a])@.len() == n,
                forall|a: int, b: int|
                    0 <= a < i && 0 <= b < n
                        ==> 0 <= #[trigger] rows@[a]@[b] < n
                            && g[a][b][rows@[a]@[b] as int] is On,
            decreases n - i,
        {
            let mut row: Vec<usize> = Vec::new();
            let mut j: usize = 0;
            while j < n
                invariant
                    i < n,
                    j <= n,
                    row@.len() == j,
                    forall|b: int|
                        0 <= b < j
                            ==> 0 <= #[trigger] row@[b] < n
                                && g[i as int][b][row@[b] as int] is On,
                decreases n - j,
            {
                proof {
                    assert forall|m: int| 0 <= m < n as int
                        implies #[trigger] line_val(
                            g, i as int, j as int, 0, SearchCoord::Z, m,
                        ) >= 0 by {
                        assert(!(g[i as int][j as int][m] is Improper));
                    }
                    assert(line_sum(g, i as int, j as int, 0, SearchCoord::Z, n as int) == 1);
                    lemma_range_has_on(g, i as int, j as int, 0, SearchCoord::Z, 0, n as int);
                }
                let mut pos = Coordinate { x: i, y: j, z: 0 };
                let found = self.find_on_cell_along_axis(&mut pos, SearchCoord::Z);
                match found {
                    Some(s) => {
                        row.push(s);
                    },
                    None => {
                        proof {
                            let w = choose|w: int|
                                0 <= w < n as int && (#[trigger] line_entry(
                                    g, i as int, j as int, 0, SearchCoord::Z, w,
                                )) is On;
                            assert(false);
                        }
                        row.push(0);
                    },
                }
                j = j + 1;
            }
            rows.push(row);
            i = i + 1;
        }
        let sq = LatinSquare { size: n, square: rows };
        proof {
            lemma_projection_is_latin(g, n as int, sq@);
        }
        sq
    }

    /// Every `On` cell of the cube, in scan order: the raw material for an
    /// optional check of the square's cyclic structure. The default
    /// generation path never calls it.
    #[verifier::loop_isolation(false)]
    pub fn find_cyclic_cell(&self) -> (r: Option<Vec<Coordinate>>)
        requires
            cube_shaped(self.grid(), self.size as int),
        ensures
            ({
                let n = self.size as int;
                let g = self.grid();
                match r {
                    Option::Some(v) => {
                        &&& forall|i: int|
                            0 <= i < v@.len() ==> {
                                let p = #[trigger] v@[i];
                                &&& in_cube(n, p.x as int, p.y as int, p.z as int)
                                &&& g[p.x as int][p.y as int][p.z as int] is On
                            }
                        &&& forall|i: int, j: int|
                            0 <= i < j < v@.len()
                                ==> coord_lex_lt(#[trigger] v@[i], #[trigger] v@[j])
                        &&& forall|x: int, y: int, z: int|
                            in_cube(n, x, y, z) && (#[trigger] g[x][y][z]) is On
                                ==> on_listed(v@, x, y, z)
                    },
                    Option::None => false,
                }
            }),
    {
        let n = self.size;
        let ghost ni = n as int;
        let ghost g = self.grid();
        let mut cells: Vec<Coordinate> = Vec::new();
        let mut a: usize = 0;
        while a < n
            invariant
                a <= n,
                collected(g, ni, cells@, a as int, 0, 0),
            decreases n - a,
        {
            let mut b: usize = 0;
            while b < n
                invariant
                    a < n,
                    b <= n,
                    collected(g, ni, cells@, a as int, b as int, 0),
                decreases n - b,
            {
                let mut c: usize = 0;
                while c < n
                    invariant
                        a < n,
                        b < n,
                        c <= n,
                        collected(g, ni, cells@, a as int, b as int, c as int),
                    decreases n - c,
                {
                    let ghost vold = cells@;
                    let ghost ai = a as int;
                    let ghost bi = b as int;
                    let ghost ci = c as int;
                    if let CubeEntry::On = self.entry_at(a, b, c) {
                        cells.push(Coordinate { x: a, y: b, z: c });
                        proof {
                            let vnew = cells@;
                            assert(vnew[vnew.len() - 1].x == a && vnew[vnew.len() - 1].y == b
                                && vnew[vnew.len() - 1].z == c);
                            assert forall|i: int|
                                0 <= i < vnew.len() implies {
                                let p = #[trigger] vnew[i];
                                &&& in_cube(ni, p.x as int, p.y as int, p.z as int)
                                &&& g[p.x as int][p.y as int][p.z as int] is On
                                &&& scanned_before(p.x as int, p.y as int, p.z as int, ai, bi, ci + 1)
                            } by {
                                if i < vnew.len() - 1 {
                                    assert(vnew[i] == vold[i]);
                                }
                            }
                            assert forall|i: int, j: int| 0 <= i < j < vnew.len()
                                implies coord_lex_lt(#[trigger] vnew[i], #[trigger] vnew[j]) by {
                                assert(vnew[i] == vold[i]);
                                if j < vnew.len() - 1 {
                                    assert(vnew[j] == vold[j]);
                                } else {
                                    assert(scanned_before(
                                        vold[i].x as int, vold[i].y as int, vold[i].z as int,
                                        ai, bi, ci,
                                    ));
                                }
                            }
                            assert forall|x: int, y: int, z: int|
                                in_cube(ni, x, y, z) && scanned_before(x, y, z, ai, bi, ci + 1)
                                    && (#[trigger] g[x][y][z]) is On
                                implies on_listed(vnew, x, y, z) by {
                                if scanned_before(x, y, z, ai, bi, ci) {
                                    let i = choose|i: int|
                                        0 <= i < vold.len() && (#[trigger] vold[i]).x == x
                                            && vold[i].y == y && vold[i].z == z;
                                    assert(vnew[i] == vold[i]);
                                    assert(vnew[i].x == x && vnew[i].y == y && vnew[i].z == z);
                                } else {
                                    assert(x == ai && y == bi && z == ci);
                                    assert(vnew[vnew.len() - 1].x == x
                                        && vnew[vnew.len() - 1].y == y
                                        && vnew[vnew.len() - 1].z == z);
                                }
                            }
                            assert(collected(g, ni, vnew, ai, bi, ci + 1));
                        }
                    } else {
                        proof {
                            assert forall|x: int, y: int, z: int|
                                in_cube(ni, x, y, z) && scanned_before(x, y, z, ai, bi, ci + 1)
                                    && (#[trigger] g[x][y][z]) is On
                                implies on_listed(cells@, x, y, z) by {
                                if !scanned_before(x, y, z, ai, bi, ci) {
                                    assert(x == ai && y == bi && z == ci);
                                    assert(false);
                                }
                            }
                            assert(collected(g, ni, cells@, ai, bi, ci + 1));
                        }
                    }
                    c = c + 1;
                }
                b = b + 1;
                proof {
                    assert(collected(g, ni, cells@, a as int, b as int, 0));
                }
            }
            a = a + 1;
            proof {
                assert(collected(g, ni, cells@, a as int, 0, 0));
            }
        }
        proof {
            assert(collected(g, ni, cells@, ni, 0, 0));
        }
        Some(cells)
    }
}

/// Before a move from a proper cube, each of the three lines through the
/// sampled origin holds an `On` cell.
proof fn lemma_proper_origin_lines(g: Grid, n: int, x1: int, y1: int, z1: int)
    requires
        lines_ok(g, n),
        no_improper_at_all(g, n),
        in_cube(n, x1, y1, z1),
    ensures
        line_has_on(g, n, 0, y1, z1, SearchCoord::X),
        line_has_on(g, n, x1, 0, z1, SearchCoord::Y),
        line_has_on(g, n, x1, y1, 0, SearchCoord::Z),
{
    assert forall|m: int| 0 <= m < n
        implies #[trigger] line_val(g, 0, y1, z1, SearchCoord::X, m) >= 0 by {
        assert(!(g[m][y1][z1] is Improper));
    }
    assert(line_sum(g, 0, y1, z1, SearchCoord::X, n) == 1);
    lemma_range_has_on(g, 0, y1, z1, SearchCoord::X, 0, n);
    assert forall|m: int| 0 <= m < n
        implies #[trigger] line_val(g, x1, 0, z1, SearchCoord::Y, m) >= 0 by {
        assert(!(g[x1][m][z1] is Improper));
    }
    assert(line_sum(g, x1, 0, z1, SearchCoord::Y, n) == 1);
    lemma_range_has_on(g, x1, 0, z1, SearchCoord::Y, 0, n);
    assert forall|m: int| 0 <= m < n
        implies #[trigger] line_val(g, x1, y1, 0, SearchCoord::Z, m) >= 0 by {
        assert(!(g[x1][y1][m] is Improper));
    }
    assert(line_sum(g, x1, y1, 0, SearchCoord::Z, n) == 1);
    lemma_range_has_on(g, x1, y1, 0, SearchCoord::Z, 0, n);
}

/// Before a move from the recorded improper cell, each of the three lines
/// through it holds two `On` cells.
proof fn lemma_improper_origin_lines(g: Grid, n: int, x1: int, y1: int, z1: int)
    requires
        lines_ok(g, n),
        improper_only_at(g, n, x1, y1, z1),
        g[x1][y1][z1] is Improper,
        in_cube(n, x1, y1, z1),
    ensures
        line_has_two_on(g, n, 0, y1, z1, SearchCoord::X),
        line_has_two_on(g, n, x1, 0, z1, SearchCoord::Y),
        line_has_two_on(g, n, x1, y1, 0, SearchCoord::Z),
{
    assert forall|m: int| 0 <= m < n && m != x1
        implies #[trigger] line_val(g, 0, y1, z1, SearchCoord::X, m) >= 0 by {
        assert(!(g[m][y1][z1] is Improper));
    }
    assert(line_sum(g, 0, y1, z1, SearchCoord::X, n) == 1);
    let rx = lemma_improper_line_two_on(g, 0, y1, z1, SearchCoord::X, n, x1);
    assert(line_entry(g, 0, y1, z1, SearchCoord::X, rx.0) is On);
    assert(line_entry(g, 0, y1, z1, SearchCoord::X, rx.1) is On);
    assert forall|m: int| 0 <= m < n && m != y1
        implies #[trigger] line_val(g, x1, 0, z1, SearchCoord::Y, m) >= 0 by {
        assert(!(g[x1][m][z1] is Improper));
    }
    assert(line_sum(g, x1, 0, z1, SearchCoord::Y, n) == 1);
    let ry = lemma_improper_line_two_on(g, x1, 0, z1, SearchCoord::Y, n, y1);
    assert(line_entry(g, x1, 0, z1, SearchCoord::Y, ry.0) is On);
    assert(line_entry(g, x1, 0, z1, SearchCoord::Y, ry.1) is On);
    assert forall|m: int| 0 <= m < n && m != z1
        implies #[trigger] line_val(g, x1, y1, 0, SearchCoord::Z, m) >= 0 by {
        assert(!(g[x1][y1][m] is Improper));
    }
    assert(line_sum(g, x1, y1, 0, SearchCoord::Z, n) == 1);
    let rz = lemma_improper_line_two_on(g, x1, y1, 0, SearchCoord::Z, n, z1);
    assert(line_entry(g, x1, y1, 0, SearchCoord::Z, rz.0) is On);
    assert(line_entry(g, x1, y1, 0, SearchCoord::Z, rz.1) is On);
}

/// A proper cube's projection is a latin square: the single `On` cell of
/// each axis line makes every row and every column a permutation of the
/// symbols.
proof fn lemma_projection_is_latin(g: Grid, n: int, q: Seq<Seq<usize>>)
    requires
        2 <= n,
        cube_shaped(g, n),
        lines_ok(g, n),
        no_improper_at_all(g, n),
        q.len() == n,
        forall|r: int| 0 <= r < n ==> (#[trigger] q[r]).len() == n,
        forall|r: int, c: int|
            0 <= r < n && 0 <= c < n
                ==> 0 <= #[trigger] sym_at(q, r, c) < n && g[r][c][sym_at(q, r, c)] is On,
    ensures
        is_latin_square(q, n),
{
    assert forall|r: int, c1: int, c2: int|
        0 <= r < n && 0 <= c1 < n && 0 <= c2 < n && sym_at(q, r, c1) == sym_at(q, r, c2)
            implies c1 == c2 by {
        if c1 != c2 {
            let s = sym_at(q, r, c1);
            assert forall|m: int| 0 <= m < n
                implies #[trigger] line_val(g, r, 0, s, SearchCoord::Y, m) >= 0 by {
                assert(!(g[r][m][s] is Improper));
            }
            assert(line_entry(g, r, 0, s, SearchCoord::Y, c1) is On);
            assert(line_entry(g, r, 0, s, SearchCoord::Y, c2) is On);
            if c1 < c2 {
                lemma_range_two_on(g, r, 0, s, SearchCoord::Y, 0, n, c1, c2);
            } else {
                lemma_range_two_on(g, r, 0, s, SearchCoord::Y, 0, n, c2, c1);
            }
            assert(line_sum(g, r, 0, s, SearchCoord::Y, n) == 1);
            assert(false);
        }
    }
    assert forall|r1: int, r2: int, c: int|
        0 <= r1 < n && 0 <= r2 < n && 0 <= c < n && sym_at(q, r1, c) == sym_at(q, r2, c)
            implies r1 == r2 by {
        if r1 != r2 {
            let s = sym_at(q, r1, c);
            assert forall|m: int| 0 <= m < n
                implies #[trigger] line_val(g, 0, c, s, SearchCoord::X, m) >= 0 by {
                assert(!(g[m][c][s] is Improper));
            }
            assert(line_entry(g, 0, c, s, SearchCoord::X, r1) is On);
            assert(line_entry(g, 0, c, s, SearchCoord::X, r2) is On);
            if r1 < r2 {
                lemma_range_two_on(g, 0, c, s, SearchCoord::X, 0, n, r1, r2);
            } else {
                lemma_range_two_on(g, 0, c, s, SearchCoord::X, 0, n, r2, r1);
            }
            assert(line_sum(g, 0, c, s, SearchCoord::X, n) == 1);
            assert(false);
        }
    }
    assert forall|r: int, s: int| 0 <= r < n && 0 <= s < n
        implies #[trigger] row_has_symbol(q, n, r, s) by {
        assert forall|m: int| 0 <= m < n
            implies #[trigger] line_val(g, r, 0, s, SearchCoord::Y, m) >= 0 by {
            assert(!(g[r][m][s] is Improper));
        }
        assert(line_sum(g, r, 0, s, SearchCoord::Y, n) == 1);
        lemma_range_has_on(g, r, 0, s, SearchCoord::Y, 0, n);
        let c = choose|c: int|
            0 <= c < n && (#[trigger] line_entry(g, r, 0, s, SearchCoord::Y, c)) is On;
        assert(g[r][c][s] is On);
        // the recorded symbol of (r, c) must be s: the z line at (r, c)
        // cannot hold two On cells
        if sym_at(q, r, c) != s {
            assert forall|m: int| 0 <= m < n
                implies #[trigger] line_val(g, r, c, 0, SearchCoord::Z, m) >= 0 by {
                assert(!(g[r][c][m] is Improper));
            }
            assert(line_entry(g, r, c, 0, SearchCoord::Z, s) is On);
            assert(line_entry(g, r, c, 0, SearchCoord::Z, sym_at(q, r, c)) is On);
            if s < sym_at(q, r, c) {
                lemma_range_two_on(g, r, c, 0, SearchCoord::Z, 0, n, s, sym_at(q, r, c));
            } else {
                lemma_range_two_on(g, r, c, 0, SearchCoord::Z, 0, n, sym_at(q, r, c), s);
            }
            assert(line_sum(g, r, c, 0, SearchCoord::Z, n) == 1);
            assert(false);
        }
        assert(sym_at(q, r, c) == s);
    }
    assert forall|c: int, s: int| 0 <= c < n && 0 <= s < n
        implies #[trigger] col_has_symbol(q, n, c, s) by {
        assert forall|m: int| 0 <= m < n
            implies #[trigger] line_val(g, 0, c, s, SearchCoord::X, m) >= 0 by {
            assert(!(g[m][c][s] is Improper));
        }
        assert(line_sum(g, 0, c, s, SearchCoord::X, n) == 1);
        lemma_range_has_on(g, 0, c, s, SearchCoord::X, 0, n);
        let r = choose|r: int|
            0 <= r < n && (#[trigger] line_entry(g, 0, c, s, SearchCoord::X, r)) is On;
        assert(g[r][c][s] is On);
        if sym_at(q, r, c) != s {
            assert forall|m: int| 0 <= m < n
                implies #[trigger] line_val(g, r, c, 0, SearchCoord::Z, m) >= 0 by {
                assert(!(g[r][c][m] is Improper));
            }
            assert(line_entry(g, r, c, 0, SearchCoord::Z, s) is On);
            assert(line_entry(g, r, c, 0, SearchCoord::Z, sym_at(q, r, c)) is On);
            if s < sym_at(q, r, c) {
                lemma_range_two_on(g, r, c, 0, SearchCoord::Z, 0, n, s, sym_at(q, r, c));
            } else {
                lemma_range_two_on(g, r, c, 0, SearchCoord::Z, 0, n, sym_at(q, r, c), s);
            }
            assert(line_sum(g, r, c, 0, SearchCoord::Z, n) == 1);
            assert(false);
        }
        assert(sym_at(q, r, c) == s);
    }
}

/// One of the two fixed diagonal lines (0, 0, -) and (1, 1, -) misses the
/// improper cell, and a line of weight one without an `Improper` cell has
/// an `Off` cell among its at least two entries.
proof fn lemma_off_exists_on_diag(s: &IncidenceCube)
    requires
        s.wf(),
    ensures
        (exists|j: int| 0 <= j < s.size && (#[trigger] s.grid()[0][0][j]) is Off)
            || (exists|j: int| 0 <= j < s.size && (#[trigger] s.grid()[1][1][j]) is Off),
{
    let g = s.grid();
    let n = s.size as int;
    let on_first = match s.improper_cell {
        Option::None => true,
        Option::Some(c) => !(c.x == 0 && c.y == 0),
    };
    let lx: int = if on_first { 0 } else { 1 };
    assert(in_cube(n, lx, lx, 0));
    assert forall|m: int| 0 <= m < n
        implies #[trigger] line_val(g, lx, lx, 0, SearchCoord::Z, m) >= 0 by {
        assert(line_entry(g, lx, lx, 0, SearchCoord::Z, m) == g[lx][lx][m]);
        assert(!(g[lx][lx][m] is Improper));
    }
    lemma_range_has_off(g, lx, lx, 0, SearchCoord::Z, 0, n);
    let j = choose|j: int|
        0 <= j < n && (#[trigger] line_entry(g, lx, lx, 0, SearchCoord::Z, j)) is Off;
    assert(g[lx][lx][j] is Off);
}

/// A cyclic cube projects to the cyclic square: whatever grid records,
/// for each cell, a symbol whose cube cell is `On` records exactly
/// (x + y) mod n.
pub proof fn lemma_cyclic_cube_projects_cyclic(c: IncidenceCube, q: Seq<Seq<usize>>)
    requires
        c.wf(),
        is_cyclic_cube(c),
        q.len() == c.size,
        forall|r: int| 0 <= r < c.size ==> (#[trigger] q[r]).len() == c.size,
        forall|r: int, cc: int|
            0 <= r < c.size && 0 <= cc < c.size
                ==> 0 <= #[trigger] sym_at(q, r, cc) < c.size
                    && c.grid()[r][cc][sym_at(q, r, cc)] is On,
    ensures
        forall|r: int, cc: int|
            0 <= r < c.size && 0 <= cc < c.size
                ==> #[trigger] sym_at(q, r, cc) == cyclic_symbol(c.size as int, r, cc),
{
    assert forall|r: int, cc: int| 0 <= r < c.size && 0 <= cc < c.size
        implies #[trigger] sym_at(q, r, cc) == cyclic_symbol(c.size as int, r, cc) by {
        assert(c.grid()[r][cc][sym_at(q, r, cc)] is On);
    }
}

/// A well-formed cube holds at most one `Improper` cell: exactly one while
/// a flaw is recorded, none otherwise.
pub proof fn lemma_at_most_one_improper(c: IncidenceCube)
    requires
        c.wf(),
    ensures
        improper_cell_count(c.grid(), c.size as int)
            == (if c.improper_cell is Some { 1int } else { 0int }),
        improper_cell_count(c.grid(), c.size as int) <= 1,
{
    match c.improper_cell {
        Option::None => {
            lemma_on_count_proper(c.grid(), c.size as int);
        },
        Option::Some(u) => {
            lemma_on_count_improper(
                c.grid(), c.size as int, u.x as int, u.y as int, u.z as int,
            );
        },
    }
}

/// The walk never changes the cube's cell budget: a well-formed cube has
/// exactly n * n `On` cells, plus one standing in for the flaw while one
/// is recorded. Since every move step preserves well-formedness, the count
/// is the same before and after each step.
pub proof fn lemma_on_count_invariant(c: IncidenceCube)
    requires
        c.wf(),
    ensures
        on_cell_count(c.grid(), c.size as int)
            == (c.size as int) * (c.size as int)
                + (if c.improper_cell is Some { 1int } else { 0int }),
{
    match c.improper_cell {
        Option::None => {
            lemma_on_count_proper(c.grid(), c.size as int);
        },
        Option::Some(u) => {
            lemma_on_count_improper(
                c.grid(), c.size as int, u.x as int, u.y as int, u.z as int,
            );
        },
    }
}

/// A proper, well-formed cube is exactly what the walk's driver must
/// deliver before projection: every axis line holds exactly one `On` cell
/// and no `Improper` cell, and the cube has exactly n * n `On` cells.
/// `shuffle` guarantees this state whenever it reports properness.
pub proof fn lemma_proper_cube_lines(c: IncidenceCube)
    requires
        c.wf(),
        c.improper_cell is None,
    ensures
        forall|x: int, y: int, z: int, axis: SearchCoord|
            in_cube(c.size as int, x, y, z)
                ==> #[trigger] line_exactly_one_on(c.grid(), c.size as int, x, y, z, axis),
        on_cell_count(c.grid(), c.size as int) == (c.size as int) * (c.size as int),
{
    let g = c.grid();
    let n = c.size as int;
    assert forall|x: int, y: int, z: int, axis: SearchCoord|
        in_cube(n, x, y, z) implies #[trigger] line_exactly_one_on(g, n, x, y, z, axis) by {
        assert forall|m: int| 0 <= m < n
            implies #[trigger] line_val(g, x, y, z, axis, m) >= 0 by {
            let p = axis_index(x, y, z, axis, m);
            assert(!(g[p.0][p.1][p.2] is Improper));
        }
        assert(line_sum(g, x, y, z, axis, n) == 1);
        lemma_range_has_on(g, x, y, z, axis, 0, n);
        let j = choose|j: int|
            0 <= j < n && (#[trigger] line_entry(g, x, y, z, axis, j)) is On;
        lemma_line_unique_on(g, x, y, z, axis, n, j);
    }
    lemma_on_count_proper(g, n);
}

} // verus!
