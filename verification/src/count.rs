//! Counting open passages and visited cells.
//!
//! Both counts are defined as row-by-row sums over the grid, and the lemmas
//! here relate the sums of two mazes that agree cell by cell, or differ in a
//! single cell. The carving loop maintains `visited_count == open_count + 1`,
//! which at termination yields the spanning-tree edge count
//! `rows * columns - 1`.

use vstd::prelude::*;

use crate::grid::{BottomBoundary, Cell, Maze, RightBoundary, VisitStatus};

verus! {

/// 1 if the cell is marked visited, else 0.
pub open spec fn visited_flag(cell: Cell) -> nat {
    if cell.visit_status == VisitStatus::Visited {
        1nat
    } else {
        0nat
    }
}

/// How many open passages this cell owns (0, 1 or 2).
pub open spec fn open_flags(cell: Cell) -> nat {
    (if cell.right_side == RightBoundary::Open {
        1nat
    } else {
        0nat
    }) + (if cell.bottom_side == BottomBoundary::Open {
        1nat
    } else {
        0nat
    })
}

/// Sum of `visited_flag` over the first `n` cells of row `r`.
pub open spec fn row_visited_count(m: Maze, r: int, n: int) -> nat
    decreases n,
{
    if n <= 0 {
        0
    } else {
        row_visited_count(m, r, n - 1) + visited_flag(m.cell_at(r, n - 1))
    }
}

/// Sum of `visited_flag` over the first `rn` full rows.
pub open spec fn visited_count_upto(m: Maze, rn: int) -> nat
    decreases rn,
{
    if rn <= 0 {
        0
    } else {
        visited_count_upto(m, rn - 1) + row_visited_count(m, rn - 1, m.num_columns as int)
    }
}

/// The number of visited cells in the whole grid.
pub open spec fn visited_count(m: Maze) -> nat {
    visited_count_upto(m, m.num_rows as int)
}

/// Sum of `open_flags` over the first `n` cells of row `r`.
pub open spec fn row_open_count(m: Maze, r: int, n: int) -> nat
    decreases n,
{
    if n <= 0 {
        0
    } else {
        row_open_count(m, r, n - 1) + open_flags(m.cell_at(r, n - 1))
    }
}

/// Sum of `open_flags` over the first `rn` full rows.
pub open spec fn open_count_upto(m: Maze, rn: int) -> nat
    decreases rn,
{
    if rn <= 0 {
        0
    } else {
        open_count_upto(m, rn - 1) + row_open_count(m, rn - 1, m.num_columns as int)
    }
}

/// The number of open passages in the whole grid.
pub open spec fn open_count(m: Maze) -> nat {
    open_count_upto(m, m.num_rows as int)
}

/// Two mazes that agree on a row prefix, cell by cell, have equal row sums.
proof fn lemma_row_counts_congruent(m1: Maze, m2: Maze, r: int, n: int)
    requires
        forall|c: int| 0 <= c < n ==> #[trigger] m2.cell_at(r, c) == m1.cell_at(r, c),
    ensures
        row_visited_count(m2, r, n) == row_visited_count(m1, r, n),
        row_open_count(m2, r, n) == row_open_count(m1, r, n),
    decreases n,
{
    if n > 0 {
        lemma_row_counts_congruent(m1, m2, r, n - 1);
    }
}

/// Row sums of two mazes that agree on a row prefix except in column `c0`
/// differ exactly by the flags of that one cell.
proof fn lemma_row_counts_update(m1: Maze, m2: Maze, r: int, c0: int, n: int)
    requires
        0 <= c0,
        forall|c: int| 0 <= c < n && c != c0 ==> #[trigger] m2.cell_at(r, c) == m1.cell_at(r, c),
    ensures
        c0 < n ==> row_visited_count(m2, r, n) == row_visited_count(m1, r, n) - visited_flag(
            m1.cell_at(r, c0),
        ) + visited_flag(m2.cell_at(r, c0)),
        c0 < n ==> row_open_count(m2, r, n) == row_open_count(m1, r, n) - open_flags(
            m1.cell_at(r, c0),
        ) + open_flags(m2.cell_at(r, c0)),
        c0 >= n ==> row_visited_count(m2, r, n) == row_visited_count(m1, r, n),
        c0 >= n ==> row_open_count(m2, r, n) == row_open_count(m1, r, n),
    decreases n,
{
    if n > 0 {
        lemma_row_counts_update(m1, m2, r, c0, n - 1);
    }
}

/// Partial sums of two mazes that agree except in cell `(r0, c0)` differ
/// exactly by the flags of that one cell.
proof fn lemma_counts_upto_update(m1: Maze, m2: Maze, r0: int, c0: int, rn: int)
    requires
        m1.num_columns == m2.num_columns,
        0 <= r0,
        0 <= c0 < m1.num_columns,
        forall|r: int, c: int|
            0 <= r < rn && 0 <= c < m1.num_columns && (r != r0 || c != c0)
                ==> #[trigger] m2.cell_at(r, c) == m1.cell_at(r, c),
    ensures
        r0 < rn ==> visited_count_upto(m2, rn) == visited_count_upto(m1, rn) - visited_flag(
            m1.cell_at(r0, c0),
        ) + visited_flag(m2.cell_at(r0, c0)),
        r0 < rn ==> open_count_upto(m2, rn) == open_count_upto(m1, rn) - open_flags(
            m1.cell_at(r0, c0),
        ) + open_flags(m2.cell_at(r0, c0)),
        r0 >= rn ==> visited_count_upto(m2, rn) == visited_count_upto(m1, rn),
        r0 >= rn ==> open_count_upto(m2, rn) == open_count_upto(m1, rn),
    decreases rn,
{
    if rn > 0 {
        lemma_counts_upto_update(m1, m2, r0, c0, rn - 1);
        if r0 == rn - 1 {
            lemma_row_counts_update(m1, m2, rn - 1, c0, m1.num_columns as int);
        } else {
            lemma_row_counts_congruent(m1, m2, rn - 1, m1.num_columns as int);
        }
    }
}

/// The counts of two mazes that agree except in one cell differ exactly by
/// that cell's flags.
pub proof fn lemma_counts_update(m1: Maze, m2: Maze, r0: int, c0: int)
    requires
        m1.num_rows == m2.num_rows,
        m1.num_columns == m2.num_columns,
        m1.in_bounds(r0, c0),
        forall|r: int, c: int|
            m1.in_bounds(r, c) && (r != r0 || c != c0) ==> #[trigger] m2.cell_at(r, c)
                == m1.cell_at(r, c),
    ensures
        visited_count(m2) == visited_count(m1) - visited_flag(m1.cell_at(r0, c0)) + visited_flag(
            m2.cell_at(r0, c0),
        ),
        open_count(m2) == open_count(m1) - open_flags(m1.cell_at(r0, c0)) + open_flags(
            m2.cell_at(r0, c0),
        ),
{
    lemma_counts_upto_update(m1, m2, r0, c0, m1.num_rows as int);
}

/// A row sum of visit flags is at most the number of cells summed, and one
/// unvisited cell in the prefix lowers the bound by one.
proof fn lemma_row_visited_bound(m: Maze, r: int, n: int)
    requires
        0 <= n,
    ensures
        row_visited_count(m, r, n) <= n,
        forall|c: int|
            0 <= c < n && (#[trigger] m.cell_at(r, c)).visit_status != VisitStatus::Visited
                ==> row_visited_count(m, r, n) <= n - 1,
    decreases n,
{
    if n > 0 {
        lemma_row_visited_bound(m, r, n - 1);
    }
}

/// The visited count is at most the number of cells, and strictly less when
/// some in-bounds cell is unvisited.
proof fn lemma_visited_upto_bound(m: Maze, rn: int)
    requires
        0 <= rn,
    ensures
        visited_count_upto(m, rn) <= rn * m.num_columns,
        forall|r: int, c: int|
            0 <= r < rn && 0 <= c < m.num_columns && (#[trigger] m.cell_at(
                r,
                c,
            )).visit_status != VisitStatus::Visited ==> visited_count_upto(m, rn) <= rn * m.num_columns - 1,
    decreases rn,
{
    if rn > 0 {
        lemma_visited_upto_bound(m, rn - 1);
        lemma_row_visited_bound(m, rn - 1, m.num_columns as int);
        assert((rn - 1) * m.num_columns == rn * m.num_columns - m.num_columns)
            by (nonlinear_arith);
    }
}

/// `visited_count` never exceeds the grid size, and is strictly below it
/// while some cell is still unvisited.
pub proof fn lemma_visited_count_bound(m: Maze)
    ensures
        visited_count(m) <= m.num_rows * m.num_columns,
        forall|r: int, c: int|
            m.in_bounds(r, c) && (#[trigger] m.cell_at(r, c)).visit_status != VisitStatus::Visited
                ==> visited_count(m) <= m.num_rows * m.num_columns - 1,
{
    lemma_visited_upto_bound(m, m.num_rows as int);
}

/// A row sum of visit flags over an all-visited prefix is the prefix length.
proof fn lemma_row_visited_full(m: Maze, r: int, n: int)
    requires
        0 <= n,
        forall|c: int| 0 <= c < n ==> (#[trigger] m.cell_at(r, c)).visit_status == VisitStatus::Visited,
    ensures
        row_visited_count(m, r, n) == n,
    decreases n,
{
    if n > 0 {
        lemma_row_visited_full(m, r, n - 1);
    }
}

proof fn lemma_visited_upto_full(m: Maze, rn: int)
    requires
        0 <= rn,
        forall|r: int, c: int|
            0 <= r < rn && 0 <= c < m.num_columns ==> (#[trigger] m.cell_at(
                r,
                c,
            )).visit_status == VisitStatus::Visited,
    ensures
        visited_count_upto(m, rn) == rn * m.num_columns,
    decreases rn,
{
    if rn > 0 {
        lemma_visited_upto_full(m, rn - 1);
        lemma_row_visited_full(m, rn - 1, m.num_columns as int);
        assert(visited_count_upto(m, rn) == (rn - 1) * m.num_columns + m.num_columns);
        assert((rn - 1) * m.num_columns + m.num_columns == rn * m.num_columns)
            by (nonlinear_arith);
    } else {
        assert(rn * m.num_columns == 0) by (nonlinear_arith)
            requires rn == 0,
        ;
    }
}

/// When every cell is visited, the visited count is the grid size.
pub proof fn lemma_visited_count_full(m: Maze)
    requires
        forall|r: int, c: int|
            m.in_bounds(r, c) ==> (#[trigger] m.cell_at(r, c)).visit_status == VisitStatus::Visited,
    ensures
        visited_count(m) == m.num_rows * m.num_columns,
{
    lemma_visited_upto_full(m, m.num_rows as int);
}

proof fn lemma_row_counts_zero(m: Maze, r: int, n: int)
    requires
        0 <= n,
        forall|c: int| 0 <= c < n ==> #[trigger] m.cell_at(r, c) == Cell::initial(),
    ensures
        row_visited_count(m, r, n) == 0,
        row_open_count(m, r, n) == 0,
    decreases n,
{
    if n > 0 {
        lemma_row_counts_zero(m, r, n - 1);
    }
}

proof fn lemma_counts_upto_zero(m: Maze, rn: int)
    requires
        0 <= rn,
        forall|r: int, c: int|
            0 <= r < rn && 0 <= c < m.num_columns ==> #[trigger] m.cell_at(r, c)
                == Cell::initial(),
    ensures
        visited_count_upto(m, rn) == 0,
        open_count_upto(m, rn) == 0,
    decreases rn,
{
    if rn > 0 {
        lemma_counts_upto_zero(m, rn - 1);
        lemma_row_counts_zero(m, rn - 1, m.num_columns as int);
    }
}

/// A freshly built or fully reset maze has no visited cell and no open
/// passage.
pub proof fn lemma_counts_fresh(m: Maze)
    requires
        m.fresh(),
    ensures
        visited_count(m) == 0,
        open_count(m) == 0,
{
    lemma_counts_upto_zero(m, m.num_rows as int);
}

/// Open-passage counts agree whenever the walls agree, whatever the visit
/// markers do.
pub proof fn lemma_open_count_same_passages(m1: Maze, m2: Maze)
    requires
        m2.same_passages(m1),
    ensures
        open_count(m2) == open_count(m1),
{
    lemma_open_upto_same_passages(m1, m2, m1.num_rows as int);
}

proof fn lemma_open_row_same_passages(m1: Maze, m2: Maze, r: int, n: int)
    requires
        m2.same_passages(m1),
        0 <= r < m1.num_rows,
        n <= m1.num_columns,
    ensures
        row_open_count(m2, r, n) == row_open_count(m1, r, n),
    decreases n,
{
    if n > 0 {
        lemma_open_row_same_passages(m1, m2, r, n - 1);
        assert(m2.cell_at(r, n - 1).right_side == m1.cell_at(r, n - 1).right_side);
    }
}

proof fn lemma_open_upto_same_passages(m1: Maze, m2: Maze, rn: int)
    requires
        m2.same_passages(m1),
        rn <= m1.num_rows,
    ensures
        open_count_upto(m2, rn) == open_count_upto(m1, rn),
    decreases rn,
{
    if rn > 0 {
        lemma_open_upto_same_passages(m1, m2, rn - 1);
        lemma_open_row_same_passages(m1, m2, rn - 1, m1.num_columns as int);
    }
}

} // verus!
