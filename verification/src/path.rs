//! Paths through open passages.
//!
//! A path is a nonempty sequence of in-bounds coordinates in which every
//! consecutive pair is joined by an open passage. `connected` is plain
//! reachability over such paths; `search_path` additionally demands that
//! every cell after the first be unmarked, which is exactly the region a
//! breadth-first search that expands only into unvisited cells can explore.

use vstd::prelude::*;

use crate::grid::{grid_adjacent, Maze};

verus! {

pub open spec fn path_cell_ok(m: Maze, p: Seq<(int, int)>, i: int) -> bool {
    m.in_bounds(p[i].0, p[i].1)
}

pub open spec fn path_step_ok(m: Maze, p: Seq<(int, int)>, i: int) -> bool {
    m.passage(p[i].0, p[i].1, p[i + 1].0, p[i + 1].1)
}

/// A nonempty walk along open passages.
pub open spec fn valid_path(m: Maze, p: Seq<(int, int)>) -> bool {
    &&& p.len() >= 1
    &&& forall|i: int| 0 <= i < p.len() ==> #[trigger] path_cell_ok(m, p, i)
    &&& forall|i: int| 0 <= i < p.len() - 1 ==> #[trigger] path_step_ok(m, p, i)
}

/// `p` is a walk from `(r1, c1)` to `(r2, c2)`.
pub open spec fn connects(m: Maze, p: Seq<(int, int)>, r1: int, c1: int, r2: int, c2: int) -> bool {
    &&& valid_path(m, p)
    &&& p[0] == (r1, c1)
    &&& p[p.len() - 1] == (r2, c2)
}

/// `(r2, c2)` is reachable from `(r1, c1)` through open passages.
pub open spec fn connected(m: Maze, r1: int, c1: int, r2: int, c2: int) -> bool {
    exists|p: Seq<(int, int)>| #[trigger] connects(m, p, r1, c1, r2, c2)
}

/// Every cell is reachable from the entrance cell `(start_row, 0)`.
pub open spec fn fully_connected(m: Maze) -> bool {
    forall|r: int, c: int|
        m.in_bounds(r, c) ==> #[trigger] connected(m, m.start_row as int, 0, r, c)
}

pub open spec fn path_tail_unvisited(m: Maze, p: Seq<(int, int)>, i: int) -> bool {
    !m.visited(p[i].0, p[i].1)
}

/// A walk from the entrance all of whose later cells are unmarked: the
/// region a search that only expands into unvisited cells can explore.
pub open spec fn search_path(m: Maze, p: Seq<(int, int)>) -> bool {
    &&& valid_path(m, p)
    &&& p[0] == (m.start_row as int, 0int)
    &&& forall|i: int| 1 <= i < p.len() ==> #[trigger] path_tail_unvisited(m, p, i)
}

/// The search seeded at the entrance can reach `(r, c)`.
pub open spec fn search_reaches(m: Maze, r: int, c: int) -> bool {
    exists|p: Seq<(int, int)>| #[trigger] search_path(m, p) && p[p.len() - 1] == (r, c)
}

/// The search can reach the exit cell `(end_row, num_columns - 1)`.
pub open spec fn route_exists(m: Maze) -> bool {
    search_reaches(m, m.end_row as int, m.num_columns - 1)
}

/// Every in-bounds cell is connected to itself by the one-cell walk.
pub proof fn lemma_connected_self(m: Maze, r: int, c: int)
    requires
        m.in_bounds(r, c),
    ensures
        connected(m, r, c, r, c),
{
    let p: Seq<(int, int)> = seq![(r, c)];
    assert(path_cell_ok(m, p, 0));
    assert(connects(m, p, r, c, r, c));
}

/// Reachability extends across one more open passage.
pub proof fn lemma_connected_step(
    m: Maze,
    r1: int,
    c1: int,
    r2: int,
    c2: int,
    r3: int,
    c3: int,
)
    requires
        connected(m, r1, c1, r2, c2),
        m.passage(r2, c2, r3, c3),
    ensures
        connected(m, r1, c1, r3, c3),
{
    let p = choose|p: Seq<(int, int)>| connects(m, p, r1, c1, r2, c2);
    let q = p.push((r3, c3));
    assert forall|i: int| 0 <= i < q.len() implies #[trigger] path_cell_ok(m, q, i) by {
        if i < p.len() {
            assert(path_cell_ok(m, p, i));
        }
    }
    assert forall|i: int| 0 <= i < q.len() - 1 implies #[trigger] path_step_ok(m, q, i) by {
        if i < p.len() - 1 {
            assert(path_step_ok(m, p, i));
        }
    }
    assert(connects(m, q, r1, c1, r3, c3));
}

/// A walk is still a walk in any maze of the same dimensions whose open
/// passages include the first maze's.
pub proof fn lemma_connected_mono(m1: Maze, m2: Maze, r1: int, c1: int, r2: int, c2: int)
    requires
        connected(m1, r1, c1, r2, c2),
        m1.num_rows == m2.num_rows,
        m1.num_columns == m2.num_columns,
        forall|a: int, b: int, x: int, y: int|
            #[trigger] m1.passage(a, b, x, y) ==> m2.passage(a, b, x, y),
    ensures
        connected(m2, r1, c1, r2, c2),
{
    let p = choose|p: Seq<(int, int)>| connects(m1, p, r1, c1, r2, c2);
    assert forall|i: int| 0 <= i < p.len() implies #[trigger] path_cell_ok(m2, p, i) by {
        assert(path_cell_ok(m1, p, i));
    }
    assert forall|i: int| 0 <= i < p.len() - 1 implies #[trigger] path_step_ok(m2, p, i) by {
        assert(path_step_ok(m1, p, i));
    }
    assert(connects(m2, p, r1, c1, r2, c2));
}

/// Reachability through mazes with identical walls is the same relation.
pub proof fn lemma_connected_same_passages(m1: Maze, m2: Maze, r1: int, c1: int, r2: int, c2: int)
    requires
        connected(m1, r1, c1, r2, c2),
        m2.same_passages(m1),
    ensures
        connected(m2, r1, c1, r2, c2),
{
    assert forall|a: int, b: int, x: int, y: int| #[trigger]
        m1.passage(a, b, x, y) implies m2.passage(a, b, x, y) by {}
    lemma_connected_mono(m1, m2, r1, c1, r2, c2);
}

/// Reachability is symmetric: reverse the walk.
pub proof fn lemma_connected_sym(m: Maze, r1: int, c1: int, r2: int, c2: int)
    requires
        connected(m, r1, c1, r2, c2),
    ensures
        connected(m, r2, c2, r1, c1),
{
    let p = choose|p: Seq<(int, int)>| connects(m, p, r1, c1, r2, c2);
    let n = p.len() as int;
    let q = Seq::new(p.len(), |i: int| p[n - 1 - i]);
    assert forall|i: int| 0 <= i < q.len() implies #[trigger] path_cell_ok(m, q, i) by {
        assert(path_cell_ok(m, p, n - 1 - i));
    }
    assert forall|i: int| 0 <= i < q.len() - 1 implies #[trigger] path_step_ok(m, q, i) by {
        assert(path_step_ok(m, p, n - 2 - i));
    }
    assert(connects(m, q, r2, c2, r1, c1));
}

/// Reachability is transitive: concatenate the walks.
pub proof fn lemma_connected_trans(
    m: Maze,
    r1: int,
    c1: int,
    r2: int,
    c2: int,
    r3: int,
    c3: int,
)
    requires
        connected(m, r1, c1, r2, c2),
        connected(m, r2, c2, r3, c3),
    ensures
        connected(m, r1, c1, r3, c3),
{
    let p1 = choose|p: Seq<(int, int)>| connects(m, p, r1, c1, r2, c2);
    let p2 = choose|p: Seq<(int, int)>| connects(m, p, r2, c2, r3, c3);
    let n1 = p1.len() as int;
    let q = p1 + p2.subrange(1, p2.len() as int);
    assert(q.len() == n1 + p2.len() - 1);
    assert forall|i: int| 0 <= i < q.len() implies #[trigger] path_cell_ok(m, q, i) by {
        if i < n1 {
            assert(path_cell_ok(m, p1, i));
        } else {
            assert(q[i] == p2[i - n1 + 1]);
            assert(path_cell_ok(m, p2, i - n1 + 1));
        }
    }
    assert forall|i: int| 0 <= i < q.len() - 1 implies #[trigger] path_step_ok(m, q, i) by {
        if i < n1 - 1 {
            assert(path_step_ok(m, p1, i));
            assert(q[i] == p1[i] && q[i + 1] == p1[i + 1]);
        } else if i == n1 - 1 {
            assert(q[i] == p1[n1 - 1]);
            assert(q[i + 1] == p2[1]);
            assert(path_step_ok(m, p2, 0));
        } else {
            assert(q[i] == p2[i - n1 + 1] && q[i + 1] == p2[i - n1 + 2]);
            assert(path_step_ok(m, p2, i - n1 + 1));
        }
    }
    assert(q[q.len() - 1] == p2[p2.len() - 1]);
    assert(connects(m, q, r1, c1, r3, c3));
}

/// Mazes with identical walls have identical passages.
pub proof fn lemma_same_passages_eq(m1: Maze, m2: Maze)
    requires
        m2.same_passages(m1),
    ensures
        forall|a: int, b: int, x: int, y: int|
            #[trigger] m2.passage(a, b, x, y) == m1.passage(a, b, x, y),
{
    assert forall|a: int, b: int, x: int, y: int|
        #[trigger] m2.passage(a, b, x, y) == m1.passage(a, b, x, y) by {
        if m1.passage(a, b, x, y) {
            assert(m2.passage(a, b, x, y));
        }
        if m2.passage(a, b, x, y) {
            assert(m1.passage(a, b, x, y));
        }
    }
}

/// The search trivially reaches the entrance it is seeded with.
pub proof fn lemma_search_reaches_start(m: Maze)
    requires
        m.wf(),
    ensures
        search_reaches(m, m.start_row as int, 0),
{
    let p: Seq<(int, int)> = seq![(m.start_row as int, 0int)];
    assert(path_cell_ok(m, p, 0));
    assert(search_path(m, p));
    assert(p[p.len() - 1] == (m.start_row as int, 0int));
}

/// The search's reach extends across an open passage into an unmarked
/// cell.
pub proof fn lemma_search_reach_step(m: Maze, r: int, c: int, r2: int, c2: int)
    requires
        search_reaches(m, r, c),
        m.passage(r, c, r2, c2),
        !m.visited(r2, c2),
    ensures
        search_reaches(m, r2, c2),
{
    let p = choose|p: Seq<(int, int)>| #[trigger] search_path(m, p) && p[p.len() - 1] == (r, c);
    let q = p.push((r2, c2));
    assert forall|i: int| 0 <= i < q.len() implies #[trigger] path_cell_ok(m, q, i) by {
        if i < p.len() {
            assert(path_cell_ok(m, p, i));
        }
    }
    assert forall|i: int| 0 <= i < q.len() - 1 implies #[trigger] path_step_ok(m, q, i) by {
        if i < p.len() - 1 {
            assert(path_step_ok(m, p, i));
        }
    }
    assert forall|i: int| 1 <= i < q.len() implies #[trigger] path_tail_unvisited(m, q, i) by {
        if i < p.len() {
            assert(path_tail_unvisited(m, p, i));
        }
    }
    assert(search_path(m, q));
    assert(q[q.len() - 1] == (r2, c2));
}

/// All of a cell's in-bounds grid neighbors are marked visited.
pub open spec fn neighbors_done(m: Maze, r: int, c: int) -> bool {
    forall|r2: int, c2: int|
        m.in_bounds(r2, c2) && grid_adjacent(r, c, r2, c2) ==> #[trigger] m.visited(r2, c2)
}

proof fn lemma_col0_visited(m: Maze, r: int)
    requires
        m.wf(),
        m.visited(m.start_row as int, 0),
        forall|r0: int, c0: int|
            m.in_bounds(r0, c0) && #[trigger] m.visited(r0, c0) ==> neighbors_done(m, r0, c0),
        0 <= r < m.num_rows,
    ensures
        m.visited(r, 0),
    decreases
            (if r < m.start_row {
                m.start_row - r
            } else {
                r - m.start_row
            }),
{
    if r < m.start_row {
        lemma_col0_visited(m, r + 1);
        assert(neighbors_done(m, r + 1, 0));
        assert(grid_adjacent(r + 1, 0, r, 0));
        assert(m.visited(r, 0));
    } else if r > m.start_row {
        lemma_col0_visited(m, r - 1);
        assert(neighbors_done(m, r - 1, 0));
        assert(grid_adjacent(r - 1, 0, r, 0));
        assert(m.visited(r, 0));
    }
}

proof fn lemma_row_visited_from_left(m: Maze, r: int, c: int)
    requires
        m.wf(),
        m.visited(r, 0),
        forall|r0: int, c0: int|
            m.in_bounds(r0, c0) && #[trigger] m.visited(r0, c0) ==> neighbors_done(m, r0, c0),
        m.in_bounds(r, c),
    ensures
        m.visited(r, c),
    decreases c,
{
    if c > 0 {
        lemma_row_visited_from_left(m, r, c - 1);
        assert(neighbors_done(m, r, c - 1));
        assert(grid_adjacent(r, c - 1, r, c));
        assert(m.visited(r, c));
    }
}

/// A visited region that contains the entrance and is closed under grid
/// adjacency covers the whole grid: walk down the first column, then along
/// the row.
pub proof fn lemma_visited_region_covers(m: Maze)
    requires
        m.wf(),
        m.visited(m.start_row as int, 0),
        forall|r0: int, c0: int|
            m.in_bounds(r0, c0) && #[trigger] m.visited(r0, c0) ==> neighbors_done(m, r0, c0),
    ensures
        forall|r: int, c: int| m.in_bounds(r, c) ==> #[trigger] m.visited(r, c),
{
    assert forall|r: int, c: int| m.in_bounds(r, c) implies #[trigger] m.visited(r, c) by {
        lemma_col0_visited(m, r);
        lemma_row_visited_from_left(m, r, c);
    }
}

/// Walking a path whose later cells are all unmarked, starting from a
/// processed cell, stays inside a processed set that is closed under
/// passages (up to already-marked cells). This is the completeness argument
/// for an exhausted search queue.
pub proof fn lemma_processed_covers_path(m: Maze, processed: Set<(int, int)>, p: Seq<(int, int)>)
    requires
        valid_path(m, p),
        processed.contains(p[0]),
        forall|i: int| 1 <= i < p.len() ==> #[trigger] path_tail_unvisited(m, p, i),
        forall|r: int, c: int, r2: int, c2: int|
            processed.contains((r, c)) && #[trigger] m.passage(r, c, r2, c2) ==> m.visited(r2, c2)
                || processed.contains((r2, c2)),
    ensures
        processed.contains(p[p.len() - 1]),
    decreases p.len(),
{
    if p.len() > 1 {
        assert(path_step_ok(m, p, 0));
        assert(p[0] == (p[0].0, p[0].1));
        assert(m.passage(p[0].0, p[0].1, p[1].0, p[1].1));
        assert(path_tail_unvisited(m, p, 1));
        assert(p[1] == (p[1].0, p[1].1));
        assert(processed.contains(p[1]));
        let q = p.subrange(1, p.len() as int);
        assert forall|i: int| 0 <= i < q.len() implies #[trigger] path_cell_ok(m, q, i) by {
            assert(path_cell_ok(m, p, i + 1));
        }
        assert forall|i: int| 0 <= i < q.len() - 1 implies #[trigger] path_step_ok(m, q, i) by {
            assert(path_step_ok(m, p, i + 1));
        }
        assert forall|i: int| 1 <= i < q.len() implies #[trigger] path_tail_unvisited(
            m,
            q,
            i,
        ) by {
            assert(path_tail_unvisited(m, p, i + 1));
        }
        lemma_processed_covers_path(m, processed, q);
        assert(q[q.len() - 1] == p[p.len() - 1]);
    }
}

} // verus!
