//! Properties that tie the carving and solving passes together.

use vstd::prelude::*;

use crate::grid::{Maze, MazeError};
use crate::path::{
    connected, connects, fully_connected, lemma_connected_sym, lemma_connected_trans,
    lemma_search_reaches_start, path_cell_ok, path_tail_unvisited, route_exists, search_path,
};

verus! {

/// In a maze whose every cell is reachable from the entrance — what
/// carving guarantees — every cell is reachable from every other cell:
/// walk back to the entrance, then out again.
pub proof fn lemma_all_pairs_connected(m: Maze, r1: int, c1: int, r2: int, c2: int)
    requires
        m.wf(),
        fully_connected(m),
        m.in_bounds(r1, c1),
        m.in_bounds(r2, c2),
    ensures
        connected(m, r1, c1, r2, c2),
{
    let sr = m.start_row as int;
    assert(connected(m, sr, 0, r1, c1));
    assert(connected(m, sr, 0, r2, c2));
    lemma_connected_sym(m, sr, 0, r1, c1);
    lemma_connected_trans(m, r1, c1, sr, 0, r2, c2);
}

/// A freshly carved maze — fully connected, all visit markers cleared —
/// always admits a route from the entrance to the exit, so solving it
/// succeeds.
pub proof fn lemma_generated_maze_has_route(m: Maze)
    requires
        m.wf(),
        forall|r: int, c: int| m.in_bounds(r, c) ==> !#[trigger] m.visited(r, c),
        fully_connected(m),
    ensures
        route_exists(m),
{
    let gr = m.end_row as int;
    let gc = m.num_columns - 1;
    assert(m.in_bounds(gr, gc));
    assert(connected(m, m.start_row as int, 0, gr, gc));
    let p = choose|p: Seq<(int, int)>| connects(m, p, m.start_row as int, 0, gr, gc);
    assert forall|i: int| 1 <= i < p.len() implies #[trigger] path_tail_unvisited(m, p, i) by {
        assert(path_cell_ok(m, p, i));
    }
    assert(search_path(m, p));
    assert(p[p.len() - 1] == (gr, gc));
}

/// Solving a maze whose every cell is already marked visited is a no-op:
/// no cell changes its marker, and the search succeeds only when the
/// entrance cell is itself the exit (a single-column maze whose entrance
/// and exit rows coincide). The hypotheses relating `m2` and `res` to `m`
/// are exactly what `solve_maze`'s contract guarantees of its final state
/// and result.
pub proof fn lemma_solve_on_all_visited_is_noop(m: Maze, m2: Maze, res: Result<(), MazeError>)
    requires
        m.wf(),
        forall|r: int, c: int| m.in_bounds(r, c) ==> #[trigger] m.visited(r, c),
        m2.same_passages(m),
        forall|r: int, c: int|
            m.in_bounds(r, c) && #[trigger] m.visited(r, c) ==> m2.visited(r, c),
        res is Ok <==> route_exists(m),
    ensures
        forall|r: int, c: int|
            m2.in_bounds(r, c) ==> (#[trigger] m2.visited(r, c) == m.visited(r, c)),
        res is Ok <==> (m.start_row == m.end_row && m.num_columns == 1),
{
    let gr = m.end_row as int;
    let gc = m.num_columns - 1;
    if route_exists(m) {
        let p = choose|p: Seq<(int, int)>|
            #[trigger] search_path(m, p) && p[p.len() - 1] == (gr, gc);
        if p.len() >= 2 {
            assert(path_tail_unvisited(m, p, 1));
            assert(path_cell_ok(m, p, 1));
            assert(false);
        }
        assert(p[0] == (m.start_row as int, 0int));
        assert(gr == m.start_row as int && gc == 0);
    }
    if m.start_row == m.end_row && m.num_columns == 1 {
        lemma_search_reaches_start(m);
        assert(route_exists(m));
    }
}

} // verus!
