//! Coordinate and per-cell search state for the maze grid.

use vstd::prelude::*;

verus! {

/// Cell kind: an ordinary open cell.
pub const KIND_OPEN: u8 = 0;
/// Cell kind: a wall cell; the search never enters it.
pub const KIND_WALL: u8 = 1;
/// Cell kind: the cell under the red start marker.
pub const KIND_START: u8 = 2;
/// Cell kind: the cell under the blue end marker.
pub const KIND_END: u8 = 3;

/// Chebyshev distance between two (row, column) pairs:
/// the cost metric for 8-connected uniform-cost movement.
pub open spec fn spec_chebyshev(a: (u32, u32), b: (u32, u32)) -> int {
    let dy = if a.0 >= b.0 { a.0 - b.0 } else { b.0 - a.0 };
    let dx = if a.1 >= b.1 { a.1 - b.1 } else { b.1 - a.1 };
    if dy >= dx { dy } else { dx }
}

/// An immutable (row, column) coordinate. The first component is the row
/// (y), the second the column (x).
#[derive(Clone, Copy, Debug)]
pub struct Position {
    pub position: (u32, u32),
}

impl PartialEq for Position {
    fn eq(&self, other: &Position) -> (r: bool) {
        self.position.0 == other.position.0 && self.position.1 == other.position.1
    }
}

impl vstd::std_specs::cmp::PartialEqSpecImpl for Position {
    open spec fn obeys_eq_spec() -> bool {
        true
    }

    open spec fn eq_spec(&self, other: &Position) -> bool {
        self.position == other.position
    }
}

impl Position {
    /// Builds the coordinate (row `y`, column `x`).
    pub fn new(y: u32, x: u32) -> (r: Position)
        ensures
            r.position == (y, x),
    {
        Position { position: (y, x) }
    }

    /// The column component.
    pub fn x(&self) -> (r: u32)
        ensures
            r == self.position.1,
    {
        self.position.1
    }

    /// The row component.
    pub fn y(&self) -> (r: u32)
        ensures
            r == self.position.0,
    {
        self.position.0
    }

    /// The column component as a signed integer.
    pub fn i32x(&self) -> (r: i32)
        requires
            self.position.1 <= 0x7fff_ffff,
        ensures
            r == self.position.1,
    {
        self.position.1 as i32
    }

    /// The row component as a signed integer.
    pub fn i32y(&self) -> (r: i32)
        requires
            self.position.0 <= 0x7fff_ffff,
        ensures
            r == self.position.0,
    {
        self.position.0 as i32
    }

    /// Chebyshev distance to `other`: `max(|delta row|, |delta column|)`.
    pub fn distance(&self, other: &Self) -> (r: u32)
        ensures
            r == spec_chebyshev(self.position, other.position),
    {
        let dy = if self.position.0 >= other.position.0 {
            self.position.0 - other.position.0
        } else {
            other.position.0 - self.position.0
        };
        let dx = if self.position.1 >= other.position.1 {
            self.position.1 - other.position.1
        } else {
            other.position.1 - self.position.1
        };
        if dy >= dx { dy } else { dx }
    }
}

/// Per-grid-point search state. The grid slot at `position` is the sole
/// owner of the cell; `parent` is a back-reference by coordinate only.
#[derive(Clone, Copy, Debug)]
pub struct MyCell {
    /// The (row, column) coordinate of the slot that owns this cell.
    pub position: Position,
    /// The fixed kind of the cell (`KIND_OPEN`, `KIND_WALL`, ...).
    pub t: u8,
    /// Best known cost from the start; meaningful only when `visited`.
    pub distance: u32,
    /// Chebyshev distance to the goal, set when the cell is first relaxed.
    pub heuristics: u32,
    /// Coordinate of the predecessor on the best known path; `None` for
    /// the start cell and for cells never relaxed.
    pub parent: Option<(u32, u32)>,
    /// Whether the cell lies on the final reconstructed path.
    pub walk: bool,
    /// Whether the cell has ever been pushed into the search frontier.
    pub visited: bool,
}

/// The cell that `MyCell::new(y, x, t)` returns: kind `t` at (row `y`,
/// column `x`) with all search state cleared.
pub open spec fn spec_cell_new(y: u32, x: u32, t: u8) -> MyCell {
    MyCell {
        position: Position { position: (y, x) },
        t,
        distance: 0,
        heuristics: 0,
        parent: None,
        walk: false,
        visited: false,
    }
}

impl MyCell {
    /// A fresh cell of kind `t` at (row `y`, column `x`), with all search
    /// state cleared.
    pub fn new(y: u32, x: u32, t: u8) -> (r: MyCell)
        ensures
            r == spec_cell_new(y, x, t),
    {
        MyCell {
            position: Position { position: (y, x) },
            t,
            distance: 0,
            heuristics: 0,
            parent: None,
            walk: false,
            visited: false,
        }
    }

    /// The column component of the cell's coordinate.
    pub fn x(&self) -> (r: u32)
        ensures
            r == self.position.position.1,
    {
        self.position.x()
    }

    /// The row component of the cell's coordinate.
    pub fn y(&self) -> (r: u32)
        ensures
            r == self.position.position.0,
    {
        self.position.y()
    }

    /// The cell's coordinate.
    pub fn get_position(&self) -> (r: &Position)
        ensures
            r == self.position,
    {
        &self.position
    }

    /// Sets the on-final-path flag.
    pub fn set_walk(&mut self, walk: bool)
        ensures
            *final(self) == (MyCell { walk, ..*old(self) }),
    {
        self.walk = walk;
    }

    /// Sets the pushed-into-frontier flag.
    pub fn set_visited(&mut self, visited: bool)
        ensures
            *final(self) == (MyCell { visited, ..*old(self) }),
    {
        self.visited = visited;
    }

    /// Whether the cell has ever been pushed into the frontier.
    pub fn get_visited(&self) -> (r: bool)
        ensures
            r == self.visited,
    {
        self.visited
    }

    /// Records `parent`'s coordinate as this cell's predecessor.
    pub fn set_parent(&mut self, parent: MyCell)
        ensures
            *final(self) == (MyCell {
                parent: Some((parent.position.position.0, parent.position.position.1)),
                ..*old(self)
            }),
    {
        self.parent = Some((parent.position.position.0, parent.position.position.1));
    }

    /// The recorded predecessor coordinate, if any.
    pub fn get_parent(&self) -> (r: &Option<(u32, u32)>)
        ensures
            r == self.parent,
    {
        &self.parent
    }

    /// Sets the best known cost from the start.
    pub fn set_distance(&mut self, distance: u32)
        ensures
            *final(self) == (MyCell { distance, ..*old(self) }),
    {
        self.distance = distance;
    }

    /// The best known cost from the start.
    pub fn get_distance(&self) -> (r: u32)
        ensures
            r == self.distance,
    {
        self.distance
    }

    /// Sets the heuristic (Chebyshev distance to the goal).
    pub fn set_heuristics(&mut self, heuristics: u32)
        ensures
            *final(self) == (MyCell { heuristics, ..*old(self) }),
    {
        self.heuristics = heuristics;
    }

    /// The stored heuristic value.
    pub fn get_heuristics(&self) -> (r: u32)
        ensures
            r == self.heuristics,
    {
        self.heuristics
    }

    /// The combined cost `distance + heuristic`, the frontier's priority key.
    pub fn get_combined(&self) -> (r: u32)
        requires
            self.heuristics + self.distance <= u32::MAX,
        ensures
            r == self.heuristics + self.distance,
    {
        self.heuristics + self.distance
    }

    /// The fixed kind of the cell.
    pub fn get_type(&self) -> (r: u8)
        ensures
            r == self.t,
    {
        self.t
    }

    /// Whether the cell is a wall.
    pub fn is_wall(&self) -> (r: bool)
        ensures
            r == (self.t == KIND_WALL),
    {
        self.t == KIND_WALL
    }
}

} // verus!
