//! Dense row-major grid of cells with bounds-checked access and
//! 8-neighbor enumeration.

use vstd::prelude::*;
use crate::cell::{MyCell, Position, spec_cell_new, spec_chebyshev};

verus! {

/// Error placeholder carried by `Matrix::get_neighbours` entries.
pub struct DoubleError;

/// A dense `y_size` x `x_size` grid of cells, row-major.
pub struct Matrix {
    /// The rows of the grid; each row holds `x_size` cells.
    pub matrix: Vec<Vec<MyCell>>,
    /// Number of rows.
    pub y_size: usize,
    /// Number of columns.
    pub x_size: usize,
}

impl Matrix {
    /// Shape well-formedness: the row count and every row length match the
    /// stated sizes, and both sizes are small enough that all cost
    /// arithmetic of the search stays within `u32`.
    pub open spec fn wf(&self) -> bool {
        &&& self.matrix@.len() == self.y_size
        &&& forall|r: int| 0 <= r < self.y_size ==> #[trigger] self.matrix@[r]@.len() == self.x_size
        &&& self.y_size <= 0x7fff
        &&& self.x_size <= 0x7fff
    }

    /// The cell stored at row `r`, column `c`.
    pub open spec fn cell(&self, r: int, c: int) -> MyCell {
        self.matrix@[r]@[c]
    }

    /// Whether (r, c) lies within the grid.
    pub open spec fn in_bounds(&self, r: int, c: int) -> bool {
        0 <= r < self.y_size && 0 <= c < self.x_size
    }

    /// Every cell records the coordinate of the slot that owns it.
    pub open spec fn positions_consistent(&self) -> bool {
        forall|r: int, c: int|
            self.in_bounds(r, c) ==> (#[trigger] self.cell(r, c)).position.position == (
            r as u32,
            c as u32,
            )
    }

    /// Every cell carries cleared search state: exactly what extraction
    /// leaves behind and what a search run expects to start from.
    pub open spec fn cells_fresh(&self) -> bool {
        forall|r: int, c: int|
            self.in_bounds(r, c) ==> {
                let cell = #[trigger] self.cell(r, c);
                &&& !cell.visited
                &&& !cell.walk
                &&& cell.parent is None
                &&& cell.distance == 0
                &&& cell.heuristics == 0
            }
    }

    /// A grid of the given sizes with every cell defaulted to an open cell
    /// at coordinate (0, 0); the extractor overwrites each slot afterward.
    pub fn new(x_size: usize, y_size: usize) -> (r: Matrix)
        requires
            x_size <= 0x7fff,
            y_size <= 0x7fff,
        ensures
            r.wf(),
            r.y_size == y_size,
            r.x_size == x_size,
            forall|i: int, j: int|
                r.in_bounds(i, j) ==> (#[trigger] r.cell(i, j) == spec_cell_new(0u32, 0u32, 0u8)),
    {
        let mut rows: Vec<Vec<MyCell>> = Vec::new();
        let mut y: usize = 0;
        while y < y_size
            invariant
                y <= y_size,
                rows@.len() == y,
                forall|i: int| 0 <= i < y ==> #[trigger] rows@[i]@.len() == x_size,
                forall|i: int, j: int|
                    0 <= i < y && 0 <= j < x_size ==> #[trigger] rows@[i]@[j] == spec_cell_new(0u32, 0u32, 0u8),
            decreases y_size - y,
        {
            let mut row: Vec<MyCell> = Vec::new();
            let mut x: usize = 0;
            while x < x_size
                invariant
                    x <= x_size,
                    row@.len() == x,
                    forall|j: int| 0 <= j < x ==> #[trigger] row@[j] == spec_cell_new(0u32, 0u32, 0u8),
                decreases x_size - x,
            {
                row.push(MyCell::new(0, 0, 0));
                x = x + 1;
            }
            rows.push(row);
            y = y + 1;
        }
        Matrix { matrix: rows, y_size, x_size }
    }

    /// Number of rows.
    pub fn y_size(&self) -> (r: usize)
        ensures
            r == self.y_size,
    {
        self.y_size
    }

    /// Number of columns.
    pub fn x_size(&self) -> (r: usize)
        ensures
            r == self.x_size,
    {
        self.x_size
    }

    /// Bounds-checked read of the cell at row `y`, column `x`.
    pub fn at(&self, y: usize, x: usize) -> (r: &MyCell)
        requires
            self.wf(),
            self.in_bounds(y as int, x as int),
        ensures
            *r == self.cell(y as int, x as int),
    {
        &self.matrix[y][x]
    }

    /// Bounds-checked read of the cell at a coordinate.
    pub fn at_pos(&self, pos: &Position) -> (r: &MyCell)
        requires
            self.wf(),
            self.in_bounds(pos.position.0 as int, pos.position.1 as int),
        ensures
            *r == self.cell(pos.position.0 as int, pos.position.1 as int),
    {
        &self.matrix[pos.position.0 as usize][pos.position.1 as usize]
    }

    /// Bounds-checked overwrite of the cell at row `y`, column `x`; every
    /// other cell is untouched.
    pub fn set(&mut self, y: usize, x: usize, cell: MyCell)
        requires
            old(self).wf(),
            old(self).in_bounds(y as int, x as int),
        ensures
            final(self).wf(),
            final(self).y_size == old(self).y_size,
            final(self).x_size == old(self).x_size,
            final(self).cell(y as int, x as int) == cell,
            forall|i: int, j: int|
                old(self).in_bounds(i, j) && !(i == y as int && j == x as int)
                    ==> #[trigger] final(self).cell(i, j) == old(self).cell(i, j),
    {
        let row: &mut Vec<MyCell> = &mut self.matrix[y];
        row[x] = cell;
    }

    /// If the coordinate displaced from `p` by (`dr`, `dc`) is in bounds,
    /// its cell appears somewhere in `rs`, wrapped in `Ok`.
    pub open spec fn neighbour_covered(
        &self,
        rs: Seq<Result<MyCell, DoubleError>>,
        p: (u32, u32),
        dr: int,
        dc: int,
    ) -> bool {
        self.in_bounds(p.0 + dr, p.1 + dc) ==> exists|i: int|
            0 <= i < rs.len() && #[trigger] rs[i] == Ok::<MyCell, DoubleError>(
                self.cell(p.0 + dr, p.1 + dc),
            )
    }

    /// The subset of the 8 Chebyshev-adjacent cells of `position`'s
    /// coordinate that lie within the grid, each wrapped in `Ok`;
    /// out-of-bounds coordinates are simply omitted.
    pub fn get_neighbours(&self, position: &MyCell) -> (r: Vec<Result<MyCell, DoubleError>>)
        requires
            self.wf(),
            self.in_bounds(position.position.position.0 as int, position.position.position.1 as int),
        ensures
            r@.len() <= 8,
            forall|i: int| 0 <= i < r@.len() ==> (#[trigger] r@[i]) is Ok,
            self.positions_consistent() ==> forall|i: int, j: int|
                0 <= i < j < r@.len() ==> ((#[trigger] r@[i])->Ok_0).position.position != ((
                #[trigger] r@[j])->Ok_0).position.position,
            self.positions_consistent() ==> forall|i: int|
                0 <= i < r@.len() ==> {
                    let n = (#[trigger] r@[i])->Ok_0;
                    &&& self.in_bounds(n.position.position.0 as int, n.position.position.1 as int)
                    &&& spec_chebyshev(n.position.position, position.position.position) == 1
                    &&& n == self.cell(n.position.position.0 as int, n.position.position.1 as int)
                },
            self.neighbour_covered(r@, position.position.position, 1, -1),
            self.neighbour_covered(r@, position.position.position, 1, 0),
            self.neighbour_covered(r@, position.position.position, 1, 1),
            self.neighbour_covered(r@, position.position.position, 0, -1),
            self.neighbour_covered(r@, position.position.position, 0, 1),
            self.neighbour_covered(r@, position.position.position, -1, -1),
            self.neighbour_covered(r@, position.position.position, -1, 0),
            self.neighbour_covered(r@, position.position.position, -1, 1),
    {
        let mut arr: Vec<Result<MyCell, DoubleError>> = Vec::new();
        let pos_y = position.position.position.0 as usize;
        let pos_x = position.position.position.1 as usize;
        let ghost p = position.position.position;
        let ghost mut w1: int = 0;
        let ghost mut w2: int = 0;
        let ghost mut w3: int = 0;
        let ghost mut w4: int = 0;
        let ghost mut w5: int = 0;
        let ghost mut w6: int = 0;
        let ghost mut w7: int = 0;
        let ghost mut w8: int = 0;

        if pos_y + 1 < self.y_size && pos_x >= 1 {
            arr.push(Ok(*self.at(pos_y + 1, pos_x - 1)));
            proof { w1 = arr@.len() - 1; }
        }
        if pos_y + 1 < self.y_size {
            arr.push(Ok(*self.at(pos_y + 1, pos_x)));
            proof { w2 = arr@.len() - 1; }
        }
        if pos_y + 1 < self.y_size && pos_x + 1 < self.x_size {
            arr.push(Ok(*self.at(pos_y + 1, pos_x + 1)));
            proof { w3 = arr@.len() - 1; }
        }
        if pos_x >= 1 {
            arr.push(Ok(*self.at(pos_y, pos_x - 1)));
            proof { w4 = arr@.len() - 1; }
        }
        if pos_x + 1 < self.x_size {
            arr.push(Ok(*self.at(pos_y, pos_x + 1)));
            proof { w5 = arr@.len() - 1; }
        }
        if pos_y >= 1 && pos_x >= 1 {
            arr.push(Ok(*self.at(pos_y - 1, pos_x - 1)));
            proof { w6 = arr@.len() - 1; }
        }
        if pos_y >= 1 {
            arr.push(Ok(*self.at(pos_y - 1, pos_x)));
            proof { w7 = arr@.len() - 1; }
        }
        if pos_y >= 1 && pos_x + 1 < self.x_size {
            arr.push(Ok(*self.at(pos_y - 1, pos_x + 1)));
            proof { w8 = arr@.len() - 1; }
        }
        proof {
            if self.in_bounds(p.0 + 1, p.1 - 1) {
                assert(arr@[w1] == Ok::<MyCell, DoubleError>(self.cell(p.0 + 1, p.1 - 1)));
            }
            if self.in_bounds(p.0 + 1, p.1 + 0) {
                assert(arr@[w2] == Ok::<MyCell, DoubleError>(self.cell(p.0 + 1, p.1 + 0)));
            }
            if self.in_bounds(p.0 + 1, p.1 + 1) {
                assert(arr@[w3] == Ok::<MyCell, DoubleError>(self.cell(p.0 + 1, p.1 + 1)));
            }
            if self.in_bounds(p.0 + 0, p.1 - 1) {
                assert(arr@[w4] == Ok::<MyCell, DoubleError>(self.cell(p.0 + 0, p.1 - 1)));
            }
            if self.in_bounds(p.0 + 0, p.1 + 1) {
                assert(arr@[w5] == Ok::<MyCell, DoubleError>(self.cell(p.0 + 0, p.1 + 1)));
            }
            if self.in_bounds(p.0 - 1, p.1 - 1) {
                assert(arr@[w6] == Ok::<MyCell, DoubleError>(self.cell(p.0 - 1, p.1 - 1)));
            }
            if self.in_bounds(p.0 - 1, p.1 + 0) {
                assert(arr@[w7] == Ok::<MyCell, DoubleError>(self.cell(p.0 - 1, p.1 + 0)));
            }
            if self.in_bounds(p.0 - 1, p.1 + 1) {
                assert(arr@[w8] == Ok::<MyCell, DoubleError>(self.cell(p.0 - 1, p.1 + 1)));
            }
        }
        arr
    }

    /// A row-major iterator over a copy of the grid's cells; the grid
    /// itself can hand out fresh iterators again at any time.
    pub fn iterate(&self) -> (r: MatrixIterator)
        requires
            self.wf(),
        ensures
            r.wf(),
            r.matrix@.len() == self.matrix@.len(),
            forall|i: int| 0 <= i < self.matrix@.len() ==> #[trigger] r.matrix@[i]@ == self.matrix@[i]@,
            r.y_pos == 0,
            r.x_pos == 0,
    {
        MatrixIterator::new(copy_cells(&self.matrix))
    }
}

/// A by-value deep copy of a grid's cell storage.
pub fn copy_cells(src: &Vec<Vec<MyCell>>) -> (r: Vec<Vec<MyCell>>)
    ensures
        r@.len() == src@.len(),
        forall|i: int| 0 <= i < src@.len() ==> #[trigger] r@[i]@ == src@[i]@,
{
    let mut rows: Vec<Vec<MyCell>> = Vec::new();
    let mut y: usize = 0;
    while y < src.len()
        invariant
            y <= src@.len(),
            rows@.len() == y,
            forall|i: int| 0 <= i < y ==> #[trigger] rows@[i]@ == src@[i]@,
        decreases src@.len() - y,
    {
        let srow: &Vec<MyCell> = &src[y];
        let mut row: Vec<MyCell> = Vec::new();
        let mut x: usize = 0;
        while x < srow.len()
            invariant
                x <= srow@.len(),
                row@.len() == x,
                forall|j: int| 0 <= j < x ==> #[trigger] row@[j] == srow@[j],
            decreases srow@.len() - x,
        {
            row.push(srow[x]);
            x = x + 1;
        }
        assert(row@ =~= srow@);
        rows.push(row);
        y = y + 1;
    }
    rows
}

/// Walks the cells of a grid snapshot in row-major order.
pub struct MatrixIterator {
    /// The snapshot of the grid's rows being walked.
    pub matrix: Vec<Vec<MyCell>>,
    /// Column of the next cell to hand out.
    pub x_pos: usize,
    /// Row of the next cell to hand out.
    pub y_pos: usize,
}

impl MatrixIterator {
    /// The iterator is rectangular and its cursor sits on a valid next
    /// cell or one past the end.
    pub open spec fn wf(&self) -> bool {
        &&& forall|i: int|
            0 <= i < self.matrix@.len() ==> #[trigger] self.matrix@[i]@.len()
                == self.matrix@[0]@.len()
        &&& self.y_pos <= self.matrix@.len()
        &&& (self.x_pos == 0 || (self.matrix@.len() > 0 && self.x_pos < self.matrix@[0]@.len()))
    }

    /// A fresh iterator at the top-left of `matrix`.
    pub fn new(matrix: Vec<Vec<MyCell>>) -> (r: MatrixIterator)
        requires
            forall|i: int| 0 <= i < matrix@.len() ==> #[trigger] matrix@[i]@.len() == matrix@[0]@.len(),
        ensures
            r.wf(),
            r.matrix == matrix,
            r.x_pos == 0,
            r.y_pos == 0,
    {
        MatrixIterator { matrix, x_pos: 0, y_pos: 0 }
    }

    /// Hands out the cell under the cursor and advances row-major, or
    /// returns `None` once every cell has been handed out.
    pub fn next(&mut self) -> (r: Option<MyCell>)
        requires
            old(self).wf(),
        ensures
            final(self).wf(),
            final(self).matrix == old(self).matrix,
            old(self).y_pos < old(self).matrix@.len() && old(self).x_pos
                < old(self).matrix@[0]@.len() ==> {
                &&& r == Some(old(self).matrix@[old(self).y_pos as int]@[old(self).x_pos as int])
                &&& (old(self).x_pos + 1 < old(self).matrix@[0]@.len() ==> final(self).y_pos
                    == old(self).y_pos && final(self).x_pos == old(self).x_pos + 1)
                &&& (old(self).x_pos + 1 == old(self).matrix@[0]@.len() ==> final(self).y_pos
                    == old(self).y_pos + 1 && final(self).x_pos == 0)
            },
            !(old(self).y_pos < old(self).matrix@.len() && old(self).x_pos
                < old(self).matrix@[0]@.len()) ==> r is None && *final(self) == *old(self),
    {
        if self.y_pos < self.matrix.len() {
            let row_len = self.matrix[0].len();
            if self.x_pos < row_len {
                let row: &Vec<MyCell> = &self.matrix[self.y_pos];
                let curr = row[self.x_pos];
                if self.x_pos + 1 == row_len {
                    self.x_pos = 0;
                    self.y_pos = self.y_pos + 1;
                } else {
                    self.x_pos = self.x_pos + 1;
                }
                return Some(curr);
            }
        }
        None
    }
}

/// Some cell among the first `n` of `path` sits at grid coordinate
/// (`r`, `c`).
pub open spec fn on_path_prefix(path: Seq<MyCell>, n: int, r: int, c: int) -> bool {
    exists|i: int|
        0 <= i < n && i < path.len() && (#[trigger] path[i]).position.position == (
        r as u32,
        c as u32,
        )
}

/// Some cell of `path` sits at grid coordinate (`r`, `c`).
pub open spec fn on_path(path: Seq<MyCell>, r: int, c: int) -> bool {
    on_path_prefix(path, path.len() as int, r, c)
}

} // verus!
