//! The grid model: a rectangular matrix of cells with passage flags and a
//! visit marker, plus the bounds and passage queries the algorithms use.
//!
//! A passage between two adjacent cells is stored on exactly one side: the
//! cell with the lower index owns the flag (`right_side` for a horizontal
//! passage, `bottom_side` for a vertical one). The `passage` spec function
//! hides that asymmetry and is symmetric in its two endpoints.

use vstd::prelude::*;

verus! {

/// Whether a cell has been incorporated by the phase currently running
/// (carving or searching); each phase starts from a fully unvisited grid.
#[derive(Clone, Copy, Debug, PartialEq, Eq, Structural)]
pub enum VisitStatus {
    NotVisited,
    Visited,
}

/// Whether the wall to the cell on the right is open.
#[derive(Clone, Copy, Debug, PartialEq, Eq, Structural)]
pub enum RightBoundary {
    Open,
    Closed,
}

/// Whether the wall to the cell below is open.
#[derive(Clone, Copy, Debug, PartialEq, Eq, Structural)]
pub enum BottomBoundary {
    Open,
    Closed,
}

/// One step from a cell to one of its four grid neighbors.
#[derive(Clone, Copy, Debug, PartialEq, Eq, Structural)]
pub enum Direction {
    Up,
    Down,
    Left,
    Right,
}

/// Why an operation on a maze failed.
#[derive(Clone, Copy, Debug, PartialEq, Eq, Structural)]
pub enum MazeError {
    /// A maze must have at least one row and one column.
    InvalidDimensions,
    /// The search exhausted every cell it could reach without meeting the exit.
    NoPathFound,
}

/// One grid position: a visit marker and the two passage flags this cell
/// owns (a passage is stored only on its upper/left endpoint).
#[derive(Clone, Copy, Debug, PartialEq, Eq, Structural)]
pub struct Cell {
    pub visit_status: VisitStatus,
    pub right_side: RightBoundary,
    pub bottom_side: BottomBoundary,
}

impl Cell {
    /// A fresh cell: not visited, both passages closed.
    pub fn build() -> (c: Cell)
        ensures
            c == Cell::initial(),
    {
        Cell {
            visit_status: VisitStatus::NotVisited,
            right_side: RightBoundary::Closed,
            bottom_side: BottomBoundary::Closed,
        }
    }

    /// The state every cell has right after construction or a full reset.
    pub open spec fn initial() -> Cell {
        Cell {
            visit_status: VisitStatus::NotVisited,
            right_side: RightBoundary::Closed,
            bottom_side: BottomBoundary::Closed,
        }
    }
}

/// A rectangular maze: `num_rows * num_columns` cells stored row-major in
/// `cells`, an entrance on the left edge of `start_row` and an exit on the
/// right edge of `end_row`.
#[derive(Debug)]
pub struct Maze {
    pub start_row: usize,
    pub end_row: usize,
    pub num_rows: usize,
    pub num_columns: usize,
    pub cells: Vec<Cell>,
}

/// Whether `(r2, c2)` is one grid step (up, down, left or right) away from
/// `(r1, c1)`, irrespective of any walls.
pub open spec fn grid_adjacent(r1: int, c1: int, r2: int, c2: int) -> bool {
    ||| (r1 == r2 && c2 == c1 + 1)
    ||| (r1 == r2 && c1 == c2 + 1)
    ||| (c1 == c2 && r2 == r1 + 1)
    ||| (c1 == c2 && r1 == r2 + 1)
}

/// The coordinates one step in `d` from `(r, c)`.
pub open spec fn neighbor_coords(r: int, c: int, d: Direction) -> (int, int) {
    match d {
        Direction::Up => (r - 1, c),
        Direction::Down => (r + 1, c),
        Direction::Left => (r, c - 1),
        Direction::Right => (r, c + 1),
    }
}

/// The cell that stores the flag for the passage from `(r, c)` in `d`: the
/// upper cell of a vertical passage, the left cell of a horizontal one.
pub open spec fn passage_owner(r: int, c: int, d: Direction) -> (int, int) {
    match d {
        Direction::Up => (r - 1, c),
        Direction::Down => (r, c),
        Direction::Left => (r, c - 1),
        Direction::Right => (r, c),
    }
}

/// Whether `d` points at a vertical neighbor, i.e. the owned flag is
/// `bottom_side` rather than `right_side`.
pub open spec fn is_vertical(d: Direction) -> bool {
    d == Direction::Up || d == Direction::Down
}

impl Maze {
    /// Row-major index of cell `(r, c)`.
    pub open spec fn idx(self, r: int, c: int) -> int {
        r * self.num_columns + c
    }

    pub open spec fn in_bounds(self, r: int, c: int) -> bool {
        0 <= r < self.num_rows && 0 <= c < self.num_columns
    }

    pub open spec fn cell_at(self, r: int, c: int) -> Cell {
        self.cells@[self.idx(r, c)]
    }

    pub open spec fn visited(self, r: int, c: int) -> bool {
        self.cell_at(r, c).visit_status == VisitStatus::Visited
    }

    pub open spec fn right_open(self, r: int, c: int) -> bool {
        self.cell_at(r, c).right_side == RightBoundary::Open
    }

    pub open spec fn bottom_open(self, r: int, c: int) -> bool {
        self.cell_at(r, c).bottom_side == BottomBoundary::Open
    }

    /// An open passage between `(r1, c1)` and `(r2, c2)`: the two cells are
    /// in bounds, adjacent, and the owning cell's flag is open. Symmetric in
    /// the two endpoints by construction.
    pub open spec fn passage(self, r1: int, c1: int, r2: int, c2: int) -> bool {
        &&& self.in_bounds(r1, c1)
        &&& self.in_bounds(r2, c2)
        &&& {
            ||| (r1 == r2 && c2 == c1 + 1 && self.right_open(r1, c1))
            ||| (r1 == r2 && c1 == c2 + 1 && self.right_open(r2, c2))
            ||| (c1 == c2 && r2 == r1 + 1 && self.bottom_open(r1, c1))
            ||| (c1 == c2 && r1 == r2 + 1 && self.bottom_open(r2, c2))
        }
    }

    /// Dimension and length bookkeeping, without the wall invariants.
    pub open spec fn wf_base(self) -> bool {
        &&& self.num_rows >= 1
        &&& self.num_columns >= 1
        &&& self.cells@.len() == self.num_rows * self.num_columns
        &&& self.start_row < self.num_rows
        &&& self.end_row < self.num_rows
    }

    /// Well-formed maze: consistent dimensions, entrance and exit rows in
    /// range, and no passage open across the outer boundary (the last
    /// column's right walls and the last row's bottom walls are closed).
    pub open spec fn wf(self) -> bool {
        &&& self.wf_base()
        &&& forall|r: int|
            0 <= r < self.num_rows ==> (#[trigger] self.cell_at(
                r,
                self.num_columns - 1,
            )).right_side == RightBoundary::Closed
        &&& forall|c: int|
            0 <= c < self.num_columns ==> (#[trigger] self.cell_at(
                self.num_rows - 1,
                c,
            )).bottom_side == BottomBoundary::Closed
    }

    /// Every cell is in its just-constructed state.
    pub open spec fn fresh(self) -> bool {
        forall|r: int, c: int|
            self.in_bounds(r, c) ==> #[trigger] self.cell_at(r, c) == Cell::initial()
    }

    /// Same dimensions and the same entrance and exit rows.
    pub open spec fn same_shape(self, other: Maze) -> bool {
        &&& self.num_rows == other.num_rows
        &&& self.num_columns == other.num_columns
        &&& self.start_row == other.start_row
        &&& self.end_row == other.end_row
        &&& self.cells@.len() == other.cells@.len()
    }

    /// Same shape and, cell by cell, the same two passage flags (the visit
    /// markers may differ).
    pub open spec fn same_passages(self, other: Maze) -> bool {
        &&& self.same_shape(other)
        &&& forall|r: int, c: int|
            self.in_bounds(r, c) ==> (#[trigger] self.cell_at(r, c)).right_side == other.cell_at(
                r,
                c,
            ).right_side && self.cell_at(r, c).bottom_side == other.cell_at(r, c).bottom_side
    }
}

/// Wall agreement is transitive.
pub proof fn lemma_same_passages_trans(ma: Maze, mb: Maze, mc: Maze)
    requires
        mb.same_passages(ma),
        mc.same_passages(mb),
    ensures
        mc.same_passages(ma),
{
    assert forall|r: int, c: int| mc.in_bounds(r, c) implies (#[trigger] mc.cell_at(
        r,
        c,
    )).right_side == ma.cell_at(r, c).right_side && mc.cell_at(r, c).bottom_side == ma.cell_at(
        r,
        c,
    ).bottom_side by {
        assert(mb.cell_at(r, c).right_side == ma.cell_at(r, c).right_side);
        assert(mb.cell_at(r, c).bottom_side == ma.cell_at(r, c).bottom_side);
    }
}

/// Row-major indices of distinct in-bounds coordinates are distinct.
pub proof fn lemma_idx_injective(m: Maze, r1: int, c1: int, r2: int, c2: int)
    requires
        m.in_bounds(r1, c1),
        m.in_bounds(r2, c2),
        m.idx(r1, c1) == m.idx(r2, c2),
    ensures
        r1 == r2 && c1 == c2,
{
    assert(r1 == r2 && c1 == c2) by (nonlinear_arith)
        requires
            0 <= r1 < m.num_rows,
            0 <= c1 < m.num_columns,
            0 <= r2 < m.num_rows,
            0 <= c2 < m.num_columns,
            r1 * m.num_columns + c1 == r2 * m.num_columns + c2,
    ;
}

/// The row-major index of an in-bounds coordinate is within the grid size.
pub proof fn lemma_idx_bound(m: Maze, r: int, c: int)
    requires
        m.in_bounds(r, c),
    ensures
        0 <= m.idx(r, c) < m.num_rows * m.num_columns,
{
    assert(0 <= r * m.num_columns + c < m.num_rows * m.num_columns) by (nonlinear_arith)
        requires
            0 <= r < m.num_rows,
            0 <= c < m.num_columns,
    ;
}

impl Maze {
    /// Read cell `(r, c)`.
    pub fn get_cell(&self, r: usize, c: usize) -> (cell: Cell)
        requires
            self.wf_base(),
            r < self.num_rows,
            c < self.num_columns,
        ensures
            cell == self.cell_at(r as int, c as int),
    {
        proof {
            lemma_idx_bound(*self, r as int, c as int);
        }
        let len: usize = self.cells.len();
        let i: usize = r * self.num_columns + c;
        proof {
            assert(i < len);
        }
        self.cells[i]
    }

    /// Overwrite cell `(r, c)`, leaving every other cell untouched.
    pub fn put_cell(&mut self, r: usize, c: usize, cell: Cell)
        requires
            old(self).wf_base(),
            r < old(self).num_rows,
            c < old(self).num_columns,
        ensures
            final(self).num_rows == old(self).num_rows,
            final(self).num_columns == old(self).num_columns,
            final(self).start_row == old(self).start_row,
            final(self).end_row == old(self).end_row,
            final(self).cells@.len() == old(self).cells@.len(),
            final(self).cell_at(r as int, c as int) == cell,
            forall|r2: int, c2: int|
                old(self).in_bounds(r2, c2) && (r2 != r || c2 != c)
                    ==> #[trigger] final(self).cell_at(r2, c2) == old(self).cell_at(r2, c2),
    {
        proof {
            lemma_idx_bound(*self, r as int, c as int);
        }
        let ghost m0 = *self;
        let len: usize = self.cells.len();
        let i: usize = r * self.num_columns + c;
        proof {
            assert(i < len);
        }
        self.cells[i] = cell;
        proof {
            assert forall|r2: int, c2: int|
                m0.in_bounds(r2, c2) && (r2 != r || c2 != c) implies #[trigger] self.cell_at(
                r2,
                c2,
            ) == m0.cell_at(r2, c2) by {
                lemma_idx_bound(m0, r2, c2);
                if m0.idx(r2, c2) == m0.idx(r as int, c as int) {
                    lemma_idx_injective(m0, r2, c2, r as int, c as int);
                }
            }
        }
    }

    /// Whether one step in `direction` from `(row, col)` stays inside the
    /// grid. Total: any coordinates may be asked about.
    pub fn neighbor_exists(&self, row: usize, col: usize, direction: Direction) -> (r: bool)
        requires
            self.wf(),
        ensures
            r == {
                let (nr, nc) = neighbor_coords(row as int, col as int, direction);
                self.in_bounds(row as int, col as int) && self.in_bounds(nr, nc)
            },
    {
        if row >= self.num_rows || col >= self.num_columns {
            return false;
        }
        match direction {
            Direction::Up => row > 0,
            Direction::Down => row < self.num_rows - 1,
            Direction::Left => col > 0,
            Direction::Right => col < self.num_columns - 1,
        }
    }

    /// Whether a passage is open between `(row, col)` and its neighbor in
    /// `direction`. Reads the owning cell's flag: `Up` and `Left` consult
    /// the neighbor, `Down` and `Right` consult `(row, col)` itself. Total:
    /// out-of-range coordinates simply have no passage.
    pub fn is_open(&self, row: usize, col: usize, direction: Direction) -> (r: bool)
        requires
            self.wf(),
        ensures
            r == {
                let (nr, nc) = neighbor_coords(row as int, col as int, direction);
                self.passage(row as int, col as int, nr, nc)
            },
    {
        if !self.neighbor_exists(row, col, direction) {
            return false;
        }
        match direction {
            Direction::Up => self.get_cell(row - 1, col).bottom_side == BottomBoundary::Open,
            Direction::Down => self.get_cell(row, col).bottom_side == BottomBoundary::Open,
            Direction::Left => self.get_cell(row, col - 1).right_side == RightBoundary::Open,
            Direction::Right => self.get_cell(row, col).right_side == RightBoundary::Open,
        }
    }

    /// Whether cell `(row, col)` is marked visited. Total: out-of-range
    /// coordinates count as not visited.
    pub fn is_visited(&self, row: usize, col: usize) -> (r: bool)
        requires
            self.wf(),
        ensures
            r == (self.in_bounds(row as int, col as int) && self.visited(row as int, col as int)),
    {
        if row >= self.num_rows || col >= self.num_columns {
            return false;
        }
        self.get_cell(row, col).visit_status == VisitStatus::Visited
    }

    /// Mark cell `(row, col)` visited; nothing else changes.
    pub fn mark_visited(&mut self, row: usize, col: usize)
        requires
            old(self).wf(),
            old(self).in_bounds(row as int, col as int),
        ensures
            final(self).wf(),
            final(self).same_shape(*old(self)),
            final(self).visited(row as int, col as int),
            final(self).cell_at(row as int, col as int).right_side == old(self).cell_at(
                row as int,
                col as int,
            ).right_side,
            final(self).cell_at(row as int, col as int).bottom_side == old(self).cell_at(
                row as int,
                col as int,
            ).bottom_side,
            forall|r2: int, c2: int|
                old(self).in_bounds(r2, c2) && (r2 != row || c2 != col)
                    ==> #[trigger] final(self).cell_at(r2, c2) == old(self).cell_at(r2, c2),
            final(self).same_passages(*old(self)),
    {
        let mut cell = self.get_cell(row, col);
        cell.visit_status = VisitStatus::Visited;
        self.put_cell(row, col, cell);
    }

    /// Open the passage between `(row, col)` and its neighbor in
    /// `direction`, setting the flag on whichever of the two cells owns it;
    /// nothing else changes.
    pub fn open_passage(&mut self, row: usize, col: usize, direction: Direction)
        requires
            old(self).wf(),
            old(self).in_bounds(row as int, col as int),
            old(self).in_bounds(
                neighbor_coords(row as int, col as int, direction).0,
                neighbor_coords(row as int, col as int, direction).1,
            ),
        ensures
            final(self).wf(),
            final(self).same_shape(*old(self)),
            final(self).passage(
                row as int,
                col as int,
                neighbor_coords(row as int, col as int, direction).0,
                neighbor_coords(row as int, col as int, direction).1,
            ),
            // only the owning cell changes, and only its owned flag
            forall|r2: int, c2: int|
                old(self).in_bounds(r2, c2) && (r2, c2) != passage_owner(
                    row as int,
                    col as int,
                    direction,
                ) ==> #[trigger] final(self).cell_at(r2, c2) == old(self).cell_at(r2, c2),
            ({
                let (orow, ocol) = passage_owner(row as int, col as int, direction);
                if is_vertical(direction) {
                    final(self).cell_at(orow, ocol) == (Cell {
                        bottom_side: BottomBoundary::Open,
                        ..old(self).cell_at(orow, ocol)
                    })
                } else {
                    final(self).cell_at(orow, ocol) == (Cell {
                        right_side: RightBoundary::Open,
                        ..old(self).cell_at(orow, ocol)
                    })
                }
            }),
            forall|a: int, b: int, x: int, y: int|
                #[trigger] old(self).passage(a, b, x, y) ==> final(self).passage(a, b, x, y),
    {
        let ghost m0 = *self;
        match direction {
            Direction::Up => {
                let mut cell = self.get_cell(row - 1, col);
                cell.bottom_side = BottomBoundary::Open;
                self.put_cell(row - 1, col, cell);
            },
            Direction::Down => {
                let mut cell = self.get_cell(row, col);
                cell.bottom_side = BottomBoundary::Open;
                self.put_cell(row, col, cell);
            },
            Direction::Left => {
                let mut cell = self.get_cell(row, col - 1);
                cell.right_side = RightBoundary::Open;
                self.put_cell(row, col - 1, cell);
            },
            Direction::Right => {
                let mut cell = self.get_cell(row, col);
                cell.right_side = RightBoundary::Open;
                self.put_cell(row, col, cell);
            },
        }
        proof {
            assert forall|a: int, b: int, x: int, y: int| #[trigger]
                m0.passage(a, b, x, y) implies self.passage(a, b, x, y) by {}
        }
    }

    /// Build a maze with the given dimensions: every cell fresh, entrance
    /// and exit rows drawn at random from `rng`. Fails exactly when either
    /// dimension is zero.
    pub fn build_custom(
        rng: &mut rand::rngs::StdRng,
        num_rows: usize,
        num_columns: usize,
    ) -> (res: Result<Maze, MazeError>)
        ensures
            res is Ok <==> (num_rows >= 1 && num_columns >= 1),
            (res matches Ok(m) ==> m.wf() && m.num_rows == num_rows && m.num_columns == num_columns
                && m.fresh()),
            (res matches Err(e) ==> e == MazeError::InvalidDimensions),
    {
        if num_rows == 0 || num_columns == 0 {
            return Err(MazeError::InvalidDimensions);
        }
        let start_row = crate::rng::gen_index(rng, num_rows);
        let end_row = crate::rng::gen_index(rng, num_rows);
        let mut cells: Vec<Cell> = Vec::new();
        let mut r: usize = 0;
        while r < num_rows
            invariant
                r <= num_rows,
                num_columns >= 1,
                cells@.len() == r * num_columns,
                forall|i: int| 0 <= i < cells@.len() ==> #[trigger] cells@[i] == Cell::initial(),
            decreases num_rows - r,
        {
            let mut c: usize = 0;
            while c < num_columns
                invariant
                    c <= num_columns,
                    cells@.len() == r * num_columns + c,
                    forall|i: int|
                        0 <= i < cells@.len() ==> #[trigger] cells@[i] == Cell::initial(),
                decreases num_columns - c,
            {
                cells.push(Cell::build());
                c = c + 1;
            }
            proof {
                assert(r * num_columns + num_columns == (r + 1) * num_columns)
                    by (nonlinear_arith);
            }
            r = r + 1;
        }
        let m = Maze { start_row, end_row, num_rows, num_columns, cells };
        proof {
            assert forall|rr: int, cc: int| m.in_bounds(rr, cc) implies #[trigger] m.cell_at(
                rr,
                cc,
            ) == Cell::initial() by {
                lemma_idx_bound(m, rr, cc);
            }
        }
        Ok(m)
    }

    /// Build the default five-by-five maze.
    pub fn build(rng: &mut rand::rngs::StdRng) -> (m: Maze)
        ensures
            m.wf(),
            m.num_rows == 5,
            m.num_columns == 5,
            m.fresh(),
    {
        match Maze::build_custom(rng, 5, 5) {
            Ok(m) => m,
            Err(_) => vstd::pervasive::unreached(),
        }
    }

    /// Return every cell to its just-constructed state: unvisited, all
    /// walls closed. Carving a maze again requires this full reset first.
    pub fn reset_maze(&mut self)
        requires
            old(self).wf(),
        ensures
            final(self).wf(),
            final(self).same_shape(*old(self)),
            final(self).fresh(),
    {
        let ghost m0 = *self;
        let mut r: usize = 0;
        while r < self.num_rows
            invariant
                self.wf(),
                self.same_shape(m0),
                r <= self.num_rows,
                forall|rr: int, cc: int|
                    self.in_bounds(rr, cc) && rr < r ==> #[trigger] self.cell_at(rr, cc)
                        == Cell::initial(),
            decreases self.num_rows - r,
        {
            let mut c: usize = 0;
            while c < self.num_columns
                invariant
                    self.wf(),
                    self.same_shape(m0),
                    r < self.num_rows,
                    c <= self.num_columns,
                    forall|rr: int, cc: int|
                        self.in_bounds(rr, cc) && (rr < r || (rr == r && cc < c))
                            ==> #[trigger] self.cell_at(rr, cc) == Cell::initial(),
                decreases self.num_columns - c,
            {
                self.put_cell(r, c, Cell::build());
                c = c + 1;
            }
            r = r + 1;
        }
    }

    /// Clear every visit marker, leaving all walls as they are. Carving
    /// ends with this reset so that solving starts from a clean grid.
    pub fn reset_all_visited(&mut self)
        requires
            old(self).wf(),
        ensures
            final(self).wf(),
            final(self).same_passages(*old(self)),
            forall|r: int, c: int|
                final(self).in_bounds(r, c) ==> !#[trigger] final(self).visited(r, c),
    {
        let ghost m0 = *self;
        let mut r: usize = 0;
        while r < self.num_rows
            invariant
                self.wf(),
                self.same_passages(m0),
                r <= self.num_rows,
                forall|rr: int, cc: int|
                    self.in_bounds(rr, cc) && rr < r ==> (#[trigger] self.cell_at(
                        rr,
                        cc,
                    )).visit_status == VisitStatus::NotVisited,
            decreases self.num_rows - r,
        {
            let mut c: usize = 0;
            while c < self.num_columns
                invariant
                    self.wf(),
                    self.same_passages(m0),
                    r < self.num_rows,
                    c <= self.num_columns,
                    forall|rr: int, cc: int|
                        self.in_bounds(rr, cc) && (rr < r || (rr == r && cc < c))
                            ==> (#[trigger] self.cell_at(rr, cc)).visit_status
                            == VisitStatus::NotVisited,
                decreases self.num_columns - c,
            {
                let mut cell = self.get_cell(r, c);
                cell.visit_status = VisitStatus::NotVisited;
                self.put_cell(r, c, cell);
                c = c + 1;
            }
            r = r + 1;
        }
    }
}

} // verus!
