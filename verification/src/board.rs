//! The board model: a rectangular grid of tiles, dice to populate it, and
//! the adjacency query that drives the word search.

use vstd::prelude::*;

verus! {

/// A cell is in the grid when its row and column both lie inside the bounds.
pub open spec fn in_grid(nrows: int, ncols: int, r: int, c: int) -> bool {
    0 <= r < nrows && 0 <= c < ncols
}

/// The contribution of one candidate cell to a neighbor list: itself when it
/// is in the grid, nothing otherwise.
pub open spec fn maybe_cell(nrows: int, ncols: int, r: int, c: int) -> Seq<(int, int)> {
    if in_grid(nrows, ncols, r, c) {
        seq![(r, c)]
    } else {
        Seq::empty()
    }
}

/// The in-bounds neighbors of cell (i, j), in fixed compass order: the row
/// above left to right, the two sides, then the row below left to right.
/// An offset that leaves the grid is skipped, never wrapped to the far edge.
pub open spec fn spec_neighbors(nrows: int, ncols: int, i: int, j: int) -> Seq<(int, int)> {
    maybe_cell(nrows, ncols, i - 1, j - 1) + maybe_cell(nrows, ncols, i - 1, j) + maybe_cell(
        nrows,
        ncols,
        i - 1,
        j + 1,
    ) + maybe_cell(nrows, ncols, i, j - 1) + maybe_cell(nrows, ncols, i, j + 1) + maybe_cell(
        nrows,
        ncols,
        i + 1,
        j - 1,
    ) + maybe_cell(nrows, ncols, i + 1, j) + maybe_cell(nrows, ncols, i + 1, j + 1)
}

/// A prepared grid layout is rectangular and every tile is a nonempty string.
pub open spec fn grid_wf(g: Seq<Vec<String>>) -> bool {
    &&& forall|r: int| 0 <= r < g.len() ==> (#[trigger] g[r])@.len() == g[0]@.len()
    &&& forall|r: int, c: int|
        0 <= r < g.len() && 0 <= c < g[r]@.len() ==> (#[trigger] g[r]@[c])@.len() >= 1
}

/// One die: a handful of faces, each a short tile string.
#[derive(Debug)]
pub struct Die {
    pub letters: Vec<String>,
}

/// Relies on rand::random_range on the range 0..n: the result lies in the
/// range; the call panics only when the range is empty.
#[verifier::external_body]
fn random_index(n: usize) -> (r: usize)
    requires
        n > 0,
    ensures
        r < n,
{
    rand::random_range(0..n)
}

impl Die {
    /// Rolls the die: returns one of its faces, chosen at random.
    pub fn roll(&self) -> (r: String)
        requires
            self.letters@.len() > 0,
        ensures
            exists|k: int| 0 <= k < self.letters@.len() && r@ == self.letters@[k]@,
    {
        let idx = random_index(self.letters.len());
        let face = self.letters[idx].clone();
        assert(face@ == self.letters@[idx as int]@);
        face
    }
}

/// A neighbor query result: the coordinates of the cell (x is the column,
/// y is the row) and the tile sitting on it.
#[derive(Debug, PartialEq, Eq, Hash)]
pub struct BoardPosition {
    pub chr: String,
    pub x: usize,
    pub y: usize,
}

impl BoardPosition {
    pub fn new(i: usize, j: usize, c: String) -> (p: BoardPosition)
        ensures
            p.x == i,
            p.y == j,
            p.chr == c,
    {
        BoardPosition { x: i, y: j, chr: c }
    }
}

/// A rectangular grid of tiles, indexed by (row, column).
#[derive(Debug)]
pub struct Board {
    pub dice: Vec<Vec<String>>,
}

/// The result positions match the candidate cells one for one: same
/// coordinates, and each carries the tile of its cell.
pub open spec fn positions_match(
    res: Seq<BoardPosition>,
    cells: Seq<(int, int)>,
    g: Seq<Vec<String>>,
) -> bool {
    &&& res.len() == cells.len()
    &&& forall|k: int|
        0 <= k < cells.len() ==> res[k].y == (#[trigger] cells[k]).0 && res[k].x == cells[k].1
            && res[k].chr@ == g[cells[k].0]@[cells[k].1]@
}

impl Board {
    pub open spec fn rows(self) -> int {
        self.dice@.len() as int
    }

    pub open spec fn cols(self) -> int {
        if self.dice@.len() == 0 {
            0
        } else {
            self.dice@[0]@.len() as int
        }
    }

    pub open spec fn wf(self) -> bool {
        grid_wf(self.dice@)
    }

    /// Builds a board from a prepared layout. Producing the layout (choosing
    /// and rolling dice) is the generator's concern; it must hand over a
    /// complete rectangular grid with no empty tile.
    pub fn new(dice: Vec<Vec<String>>) -> (b: Board)
        requires
            grid_wf(dice@),
        ensures
            b.dice == dice,
            b.wf(),
    {
        Board { dice }
    }

    /// Every in-bounds cell among the eight compass neighbors of (i, j), in
    /// fixed order. Offsets that fall outside the grid contribute nothing:
    /// in particular an offset below row or column zero is no neighbor, not
    /// a wrap to the far edge. A query outside the grid does not panic.
    pub fn adjacents(&self, i: usize, j: usize) -> (res: Vec<BoardPosition>)
        requires
            self.wf(),
        ensures
            positions_match(res@, spec_neighbors(self.rows(), self.cols(), i as int, j as int), self.dice@),
    {
        let nrows = self.dice.len();
        let ncols = if nrows == 0 {
            0
        } else {
            self.dice[0].len()
        };
        let ghost gr = self.rows();
        let ghost gc = self.cols();
        let ghost g = self.dice@;
        let mut res: Vec<BoardPosition> = Vec::new();

        let ghost c0 = Seq::<(int, int)>::empty();
        assert(positions_match(res@, c0, g));

        // row above
        let ghost c1 = c0 + maybe_cell(gr, gc, i as int - 1, j as int - 1);
        if i >= 1 && j >= 1 && i - 1 < nrows && j - 1 < ncols {
            let tile = self.dice[i - 1][j - 1].clone();
            res.push(BoardPosition::new(j - 1, i - 1, tile));
        }
        assert(positions_match(res@, c1, g));

        let ghost c2 = c1 + maybe_cell(gr, gc, i as int - 1, j as int);
        if i >= 1 && i - 1 < nrows && j < ncols {
            let tile = self.dice[i - 1][j].clone();
            res.push(BoardPosition::new(j, i - 1, tile));
        }
        assert(positions_match(res@, c2, g));

        let ghost c3 = c2 + maybe_cell(gr, gc, i as int - 1, j as int + 1);
        if i >= 1 && i - 1 < nrows && ncols >= 1 && j < ncols - 1 {
            let tile = self.dice[i - 1][j + 1].clone();
            res.push(BoardPosition::new(j + 1, i - 1, tile));
        }
        assert(positions_match(res@, c3, g));

        // same row
        let ghost c4 = c3 + maybe_cell(gr, gc, i as int, j as int - 1);
        if j >= 1 && i < nrows && j - 1 < ncols {
            let tile = self.dice[i][j - 1].clone();
            res.push(BoardPosition::new(j - 1, i, tile));
        }
        assert(positions_match(res@, c4, g));

        let ghost c5 = c4 + maybe_cell(gr, gc, i as int, j as int + 1);
        if i < nrows && ncols >= 1 && j < ncols - 1 {
            let tile = self.dice[i][j + 1].clone();
            res.push(BoardPosition::new(j + 1, i, tile));
        }
        assert(positions_match(res@, c5, g));

        // row below
        let ghost c6 = c5 + maybe_cell(gr, gc, i as int + 1, j as int - 1);
        if j >= 1 && nrows >= 1 && i < nrows - 1 && j - 1 < ncols {
            let tile = self.dice[i + 1][j - 1].clone();
            res.push(BoardPosition::new(j - 1, i + 1, tile));
        }
        assert(positions_match(res@, c6, g));

        let ghost c7 = c6 + maybe_cell(gr, gc, i as int + 1, j as int);
        if nrows >= 1 && i < nrows - 1 && j < ncols {
            let tile = self.dice[i + 1][j].clone();
            res.push(BoardPosition::new(j, i + 1, tile));
        }
        assert(positions_match(res@, c7, g));

        let ghost c8 = c7 + maybe_cell(gr, gc, i as int + 1, j as int + 1);
        if nrows >= 1 && i < nrows - 1 && ncols >= 1 && j < ncols - 1 {
            let tile = self.dice[i + 1][j + 1].clone();
            res.push(BoardPosition::new(j + 1, i + 1, tile));
        }
        assert(positions_match(res@, c8, g));

        assert(c8 =~= spec_neighbors(gr, gc, i as int, j as int));
        res
    }
}

/// A candidate neighbor of (i, j) is acceptable when it is in the grid, at
/// distance at most one in each direction, and not (i, j) itself.
pub open spec fn neighbor_ok(nrows: int, ncols: int, i: int, j: int, rc: (int, int)) -> bool {
    &&& in_grid(nrows, ncols, rc.0, rc.1)
    &&& i - 1 <= rc.0 <= i + 1
    &&& j - 1 <= rc.1 <= j + 1
    &&& !(rc.0 == i && rc.1 == j)
}

/// Every reported neighbor is in bounds and at most one row and one column
/// away from the queried cell, and is never the cell itself.
pub proof fn lemma_neighbors_within_one(nrows: int, ncols: int, i: int, j: int)
    ensures
        forall|k: int|
            0 <= k < spec_neighbors(nrows, ncols, i, j).len() ==> neighbor_ok(
                nrows,
                ncols,
                i,
                j,
                #[trigger] spec_neighbors(nrows, ncols, i, j)[k],
            ),
{
    let ns = spec_neighbors(nrows, ncols, i, j);
    assert forall|k: int| 0 <= k < ns.len() implies neighbor_ok(nrows, ncols, i, j, ns[k]) by {
        let m1 = maybe_cell(nrows, ncols, i - 1, j - 1);
        let m2 = maybe_cell(nrows, ncols, i - 1, j);
        let m3 = maybe_cell(nrows, ncols, i - 1, j + 1);
        let m4 = maybe_cell(nrows, ncols, i, j - 1);
        let m5 = maybe_cell(nrows, ncols, i, j + 1);
        let m6 = maybe_cell(nrows, ncols, i + 1, j - 1);
        let m7 = maybe_cell(nrows, ncols, i + 1, j);
        let m8 = maybe_cell(nrows, ncols, i + 1, j + 1);
        assert(ns == m1 + m2 + m3 + m4 + m5 + m6 + m7 + m8);
        assert(ns[k] == m1.add(m2).add(m3).add(m4).add(m5).add(m6).add(m7).add(m8)[k]);
    }
}

/// Membership in either half gives membership in a concatenation.
proof fn lemma_concat_contains(a: Seq<(int, int)>, b: Seq<(int, int)>, x: (int, int))
    requires
        a.contains(x) || b.contains(x),
    ensures
        (a + b).contains(x),
{
    if a.contains(x) {
        let k = choose|k: int| 0 <= k < a.len() && a[k] == x;
        assert((a + b)[k] == x);
    } else {
        let k = choose|k: int| 0 <= k < b.len() && b[k] == x;
        assert((a + b)[a.len() + k] == x);
    }
}

/// Completeness of the neighbor list: every acceptable candidate — in the
/// grid, at distance one, not the cell itself — is reported.
pub proof fn lemma_neighbors_complete(nrows: int, ncols: int, i: int, j: int, rc: (int, int))
    requires
        neighbor_ok(nrows, ncols, i, j, rc),
    ensures
        spec_neighbors(nrows, ncols, i, j).contains(rc),
{
    let m1 = maybe_cell(nrows, ncols, i - 1, j - 1);
    let m2 = maybe_cell(nrows, ncols, i - 1, j);
    let m3 = maybe_cell(nrows, ncols, i - 1, j + 1);
    let m4 = maybe_cell(nrows, ncols, i, j - 1);
    let m5 = maybe_cell(nrows, ncols, i, j + 1);
    let m6 = maybe_cell(nrows, ncols, i + 1, j - 1);
    let m7 = maybe_cell(nrows, ncols, i + 1, j);
    let m8 = maybe_cell(nrows, ncols, i + 1, j + 1);
    if rc.0 == i - 1 {
        if rc.1 == j - 1 {
            assert(m1[0] == rc);
        } else if rc.1 == j {
            assert(m2[0] == rc);
        } else {
            assert(m3[0] == rc);
        }
    } else if rc.0 == i {
        if rc.1 == j - 1 {
            assert(m4[0] == rc);
        } else {
            assert(m5[0] == rc);
        }
    } else {
        if rc.1 == j - 1 {
            assert(m6[0] == rc);
        } else if rc.1 == j {
            assert(m7[0] == rc);
        } else {
            assert(m8[0] == rc);
        }
    }
    let p2 = m1 + m2;
    if m1.contains(rc) || m2.contains(rc) {
        lemma_concat_contains(m1, m2, rc);
    }
    let p3 = p2 + m3;
    if p2.contains(rc) || m3.contains(rc) {
        lemma_concat_contains(p2, m3, rc);
    }
    let p4 = p3 + m4;
    if p3.contains(rc) || m4.contains(rc) {
        lemma_concat_contains(p3, m4, rc);
    }
    let p5 = p4 + m5;
    if p4.contains(rc) || m5.contains(rc) {
        lemma_concat_contains(p4, m5, rc);
    }
    let p6 = p5 + m6;
    if p5.contains(rc) || m6.contains(rc) {
        lemma_concat_contains(p5, m6, rc);
    }
    let p7 = p6 + m7;
    if p6.contains(rc) || m7.contains(rc) {
        lemma_concat_contains(p6, m7, rc);
    }
    let p8 = p7 + m8;
    if p7.contains(rc) || m8.contains(rc) {
        lemma_concat_contains(p7, m8, rc);
    }
    assert(p8 == spec_neighbors(nrows, ncols, i, j));
    assert(p8.contains(rc));
}

/// No wraparound: on a grid of at least three rows, a neighbor query on
/// row zero never reports a neighbor on the last row; with at least three
/// columns, a query on column zero never reports one on the last column.
pub proof fn lemma_no_wraparound(nrows: int, ncols: int, i: int, j: int)
    ensures
        nrows >= 3 && i == 0 ==> forall|k: int|
            0 <= k < spec_neighbors(nrows, ncols, i, j).len() ==> (#[trigger] spec_neighbors(
                nrows,
                ncols,
                i,
                j,
            )[k]).0 != nrows - 1,
        ncols >= 3 && j == 0 ==> forall|k: int|
            0 <= k < spec_neighbors(nrows, ncols, i, j).len() ==> (#[trigger] spec_neighbors(
                nrows,
                ncols,
                i,
                j,
            )[k]).1 != ncols - 1,
{
    lemma_neighbors_within_one(nrows, ncols, i, j);
}

} // verus!
