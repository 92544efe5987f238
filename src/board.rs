use vstd::prelude::*;
use crate::tile::{Tile, Multiplier, letter_value_of};

verus! {

/// A coordinate on the board: row, then column.
#[derive(Clone, Copy, Debug, PartialEq, Eq, Structural)]
pub struct BoardLocation(pub usize, pub usize);

/// Two distinct cells whose rows and columns each differ by at most one.
pub open spec fn adjacent(a: BoardLocation, b: BoardLocation) -> bool {
    &&& a != b
    &&& -1 <= a.0 - b.0 <= 1
    &&& -1 <= a.1 - b.1 <= 1
}

pub open spec fn in_bounds(loc: BoardLocation, n: nat) -> bool {
    loc.0 < n && loc.1 < n
}

/// A square grid of accepted tiles.
pub open spec fn grid_wf(grid: Seq<Vec<Tile>>) -> bool {
    &&& forall|r: int| 0 <= r < grid.len() ==> #[trigger] grid[r]@.len() == grid.len()
    &&& forall|r: int, c: int|
        0 <= r < grid.len() && 0 <= c < grid[r]@.len() ==> (#[trigger] grid[r]@[c]).wf()
}

/// The square grid of tiles a search runs on.
pub struct Board {
    pub grid: Vec<Vec<Tile>>,
}

impl Board {
    pub open spec fn wf(&self) -> bool {
        grid_wf(self.grid@)
    }

    /// Side length of the grid.
    pub open spec fn size(&self) -> nat {
        self.grid@.len()
    }

    pub open spec fn tile(&self, loc: BoardLocation) -> Tile {
        self.grid@[loc.0 as int]@[loc.1 as int]
    }

    /// Takes a grid already checked with `is_valid_grid`.
    pub fn new(board_vec: Vec<Vec<Tile>>) -> (b: Board)
        requires
            grid_wf(board_vec@),
        ensures
            b.grid@ == board_vec@,
            b.wf(),
    {
        Board { grid: board_vec }
    }

    /// Whether `grid` is square and every tile holds a table letter and positive factors.
    pub fn is_valid_grid(grid: &Vec<Vec<Tile>>) -> (ok: bool)
        ensures
            ok == grid_wf(grid@),
    {
        let n = grid.len();
        let mut r: usize = 0;
        while r < n
            invariant
                n == grid@.len(),
                r <= n,
                forall|i: int| 0 <= i < r ==> #[trigger] grid@[i]@.len() == n,
                forall|i: int, c: int|
                    0 <= i < r && 0 <= c < grid@[i]@.len() ==> (#[trigger] grid@[i]@[c]).wf(),
            decreases n - r,
        {
            let row = &grid[r];
            if row.len() != n {
                return false;
            }
            let mut c: usize = 0;
            while c < n
                invariant
                    n == grid@.len(),
                    r < n,
                    row == grid@[r as int],
                    row@.len() == n,
                    c <= n,
                    forall|j: int| 0 <= j < c ==> (#[trigger] row@[j]).wf(),
                decreases n - c,
            {
                let t = &row[c];
                if letter_value_of(t.letter.as_str()) == 0 {
                    return false;
                }
                let positive = match t.multiplier {
                    Multiplier::Word(m) => m >= 1,
                    Multiplier::Letter(m) => m >= 1,
                    Multiplier::Unmultiplied => true,
                };
                if !positive {
                    return false;
                }
                c += 1;
            }
            r += 1;
        }
        true
    }

    /// Every in-bounds cell adjacent to `loc`, each once, in row-major order.
    pub fn get_adjacent_tiles(&self, loc: &BoardLocation) -> (adj: Vec<BoardLocation>)
        requires
            self.wf(),
            in_bounds(*loc, self.size()),
        ensures
            forall|b: BoardLocation|
                #[trigger] adj@.contains(b) <==> in_bounds(b, self.size()) && adjacent(*loc, b),
            adj@.no_duplicates(),
    {
        let n = self.grid.len();
        let r0: usize = if loc.0 > 0 { loc.0 - 1 } else { 0 };
        let r1: usize = if loc.0 + 1 < n { loc.0 + 1 } else { loc.0 };
        let c0: usize = if loc.1 > 0 { loc.1 - 1 } else { 0 };
        let c1: usize = if loc.1 + 1 < n { loc.1 + 1 } else { loc.1 };
        let mut adjacent_cells: Vec<BoardLocation> = Vec::new();
        let mut row: usize = r0;
        while row <= r1
            invariant
                n == self.size(),
                in_bounds(*loc, n as nat),
                r0 <= row <= r1 + 1,
                r1 < n,
                c1 < n,
                r0 == (if loc.0 > 0 { loc.0 - 1 } else { 0 }),
                r1 == (if loc.0 + 1 < n { loc.0 + 1 } else { loc.0 as int }),
                c0 == (if loc.1 > 0 { loc.1 - 1 } else { 0 }),
                c1 == (if loc.1 + 1 < n { loc.1 + 1 } else { loc.1 as int }),
                forall|b: BoardLocation|
                    adjacent_cells@.contains(b) <==> in_bounds(b, n as nat) && adjacent(*loc, b)
                        && b.0 < row,
                forall|i: int, j: int|
                    0 <= i < j < adjacent_cells@.len() ==> before(
                        #[trigger] adjacent_cells@[i],
                        #[trigger] adjacent_cells@[j],
                    ),
                forall|i: int|
                    0 <= i < adjacent_cells@.len() ==> (#[trigger] adjacent_cells@[i]).0 < row,
            decreases r1 + 1 - row,
        {
            let mut col: usize = c0;
            while col <= c1
                invariant
                    n == self.size(),
                    in_bounds(*loc, n as nat),
                    r0 <= row <= r1,
                    c0 <= col <= c1 + 1,
                    r1 < n,
                    c1 < n,
                    r0 == (if loc.0 > 0 { loc.0 - 1 } else { 0 }),
                    r1 == (if loc.0 + 1 < n { loc.0 + 1 } else { loc.0 as int }),
                    c0 == (if loc.1 > 0 { loc.1 - 1 } else { 0 }),
                    c1 == (if loc.1 + 1 < n { loc.1 + 1 } else { loc.1 as int }),
                    forall|b: BoardLocation|
                        adjacent_cells@.contains(b) <==> in_bounds(b, n as nat) && adjacent(
                            *loc,
                            b,
                        ) && (b.0 < row || (b.0 == row && b.1 < col)),
                    forall|i: int, j: int|
                        0 <= i < j < adjacent_cells@.len() ==> before(
                            #[trigger] adjacent_cells@[i],
                            #[trigger] adjacent_cells@[j],
                        ),
                    forall|i: int|
                        0 <= i < adjacent_cells@.len() ==> before(
                            #[trigger] adjacent_cells@[i],
                            BoardLocation(row, col),
                        ),
                decreases c1 + 1 - col,
            {
                let ghost prev = adjacent_cells@;
                if row != loc.0 || col != loc.1 {
                    adjacent_cells.push(BoardLocation(row, col));
                    assert(adjacent_cells@ == prev.push(BoardLocation(row, col)));
                }
                assert forall|b: BoardLocation|
                    adjacent_cells@.contains(b) <==> in_bounds(b, n as nat) && adjacent(*loc, b) && (
                    b.0 < row || (b.0 == row && b.1 < col + 1)) by {
                    if adjacent_cells@.contains(b) {
                        let i = choose|i: int|
                            0 <= i < adjacent_cells@.len() && adjacent_cells@[i] == b;
                        if i < prev.len() {
                            assert(prev[i] == b);
                        }
                    }
                    if prev.contains(b) {
                        let i = choose|i: int| 0 <= i < prev.len() && prev[i] == b;
                        assert(adjacent_cells@[i] == b);
                    }
                    if b == BoardLocation(row, col) && (row != loc.0 || col != loc.1) {
                        assert(adjacent_cells@[adjacent_cells@.len() - 1] == b);
                    }
                }
                col += 1;
            }
            row += 1;
        }
        proof {
            assert forall|i: int, j: int|
                0 <= i < adjacent_cells@.len() && 0 <= j < adjacent_cells@.len() && i != j
                implies adjacent_cells@[i] != adjacent_cells@[j] by {
                if i < j {
                    assert(before(adjacent_cells@[i], adjacent_cells@[j]));
                } else {
                    assert(before(adjacent_cells@[j], adjacent_cells@[i]));
                }
            }
        }
        adjacent_cells
    }

    /// The tile at `loc`.
    pub fn get_tile(&self, loc: &BoardLocation) -> (t: &Tile)
        requires
            self.wf(),
            in_bounds(*loc, self.size()),
        ensures
            *t == self.tile(*loc),
    {
        &self.grid[loc.0][loc.1]
    }
}

/// Strict row-major order of cells.
pub open spec fn before(a: BoardLocation, b: BoardLocation) -> bool {
    a.0 < b.0 || (a.0 == b.0 && a.1 < b.1)
}

/// Chebyshev distance: the larger of the row and column differences.
pub open spec fn chebyshev(a: BoardLocation, b: BoardLocation) -> int {
    let dr = if a.0 >= b.0 { a.0 - b.0 } else { b.0 - a.0 };
    let dc = if a.1 >= b.1 { a.1 - b.1 } else { b.1 - a.1 };
    if dr >= dc { dr } else { dc }
}

/// Adjacency, which every step of a path takes, is Chebyshev distance exactly one.
pub proof fn lemma_adjacent_is_unit_distance(a: BoardLocation, b: BoardLocation)
    ensures
        adjacent(a, b) <==> chebyshev(a, b) == 1,
{
}

} // verus!
