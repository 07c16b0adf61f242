//! The maze engine: randomized depth-first carving and breadth-first
//! solving, both over the grid model's query and mutation primitives.

use vstd::prelude::*;

use crate::count::{
    lemma_counts_fresh, lemma_counts_update, lemma_open_count_same_passages,
    lemma_visited_count_bound, lemma_visited_count_full, open_count, open_flags, visited_count,
    visited_flag,
};
use crate::grid::{
    grid_adjacent, is_vertical, lemma_same_passages_trans, neighbor_coords, passage_owner,
    BottomBoundary, Cell, Direction, Maze, MazeError, RightBoundary, VisitStatus,
};
use crate::path::{
    connected, fully_connected, lemma_connected_mono, lemma_connected_same_passages,
    lemma_connected_self, lemma_connected_step, lemma_processed_covers_path,
    lemma_same_passages_eq, lemma_search_reach_step, lemma_search_reaches_start,
    lemma_visited_region_covers, neighbors_done, route_exists, search_path, search_reaches,
};
use crate::rng::gen_index;
use std::collections::VecDeque;

verus! {

/// Whether `(r, c)` occurs in the carving stack.
pub open spec fn on_stack(s: Seq<(usize, usize)>, r: int, c: int) -> bool {
    exists|k: int| 0 <= k < s.len() && (#[trigger] s[k]).0 == r && s[k].1 == c
}

/// The neighbor of `(row, col)` in `d` is in bounds and not yet visited:
/// carving may move there.
pub open spec fn dir_ok(m: Maze, row: int, col: int, d: Direction) -> bool {
    m.in_bounds(neighbor_coords(row, col, d).0, neighbor_coords(row, col, d).1) && !m.visited(
        neighbor_coords(row, col, d).0,
        neighbor_coords(row, col, d).1,
    )
}

/// Every open horizontal flag joins two visited cells; unreached cells have
/// all their walls intact. This is what makes each carved passage a tree
/// edge.
pub open spec fn right_passages_inside_visited(m: Maze) -> bool {
    forall|r: int, c: int|
        m.in_bounds(r, c) && (#[trigger] m.cell_at(r, c)).right_side == RightBoundary::Open
            ==> m.visited(r, c) && m.in_bounds(r, c + 1) && m.visited(r, c + 1)
}

/// The vertical counterpart of `right_passages_inside_visited`.
pub open spec fn bottom_passages_inside_visited(m: Maze) -> bool {
    forall|r: int, c: int|
        m.in_bounds(r, c) && (#[trigger] m.cell_at(r, c)).bottom_side == BottomBoundary::Open
            ==> m.visited(r, c) && m.in_bounds(r + 1, c) && m.visited(r + 1, c)
}

/// What the carving loop maintains: the stack holds visited in-bounds
/// cells; exactly one more cell is visited than passages are open; every
/// passage joins visited cells; every visited cell is reachable from the
/// entrance; and a visited cell that has left the stack has no unvisited
/// neighbor left.
pub open spec fn carve_invariant(m0: Maze, m: Maze, s: Seq<(usize, usize)>) -> bool {
    &&& m.wf()
    &&& m.same_shape(m0)
    &&& m.visited(m0.start_row as int, 0)
    &&& forall|k: int|
        0 <= k < s.len() ==> m.in_bounds((#[trigger] s[k]).0 as int, s[k].1 as int) && m.visited(
            s[k].0 as int,
            s[k].1 as int,
        )
    &&& visited_count(m) == open_count(m) + 1
    &&& visited_count(m) <= m.num_rows * m.num_columns
    &&& right_passages_inside_visited(m)
    &&& bottom_passages_inside_visited(m)
    &&& forall|r: int, c: int|
        m.in_bounds(r, c) && #[trigger] m.visited(r, c) ==> connected(
            m,
            m0.start_row as int,
            0,
            r,
            c,
        )
    &&& forall|r: int, c: int|
        m.in_bounds(r, c) && #[trigger] m.visited(r, c) && !on_stack(s, r, c) ==> neighbors_done(
            m,
            r,
            c,
        )
}

/// Popping a cell whose neighbors are all visited preserves the carving
/// invariant.
proof fn lemma_carve_backtrack(m0: Maze, m: Maze, s: Seq<(usize, usize)>)
    requires
        carve_invariant(m0, m, s),
        s.len() > 0,
        neighbors_done(m, s[s.len() - 1].0 as int, s[s.len() - 1].1 as int),
    ensures
        carve_invariant(m0, m, s.subrange(0, s.len() - 1)),
{
    let s2 = s.subrange(0, s.len() - 1);
    assert forall|r: int, c: int|
        m.in_bounds(r, c) && #[trigger] m.visited(r, c) && !on_stack(s2, r, c) implies
        neighbors_done(m, r, c) by {
        if on_stack(s, r, c) {
            let k = choose|k: int|
                0 <= k < s.len() && (#[trigger] s[k]).0 == r && s[k].1 == c;
            if k < s.len() - 1 {
                assert((#[trigger] s2[k]).0 == r && s2[k].1 == c);
                assert(on_stack(s2, r, c));
            } else {
                assert(r == s[s.len() - 1].0 as int && c == s[s.len() - 1].1 as int);
            }
        }
    }
}

/// Carving one passage into a fresh cell preserves the carving invariant
/// and visits exactly one more cell.
///
/// `pre` is the grid at the top of the iteration, `mid` the grid after the
/// chosen neighbor `(nr, nc)` is marked visited, `post` the grid after the
/// passage toward it is opened; the hypotheses relating them are the
/// contracts of `mark_visited` and `open_passage`.
proof fn lemma_carve_step(
    m0: Maze,
    pre: Maze,
    mid: Maze,
    post: Maze,
    s: Seq<(usize, usize)>,
    row: usize,
    col: usize,
    nr: usize,
    nc: usize,
    d: Direction,
)
    requires
        carve_invariant(m0, pre, s),
        s.len() > 0,
        s[s.len() - 1].0 == row && s[s.len() - 1].1 == col,
        dir_ok(pre, row as int, col as int, d),
        neighbor_coords(row as int, col as int, d) == (nr as int, nc as int),
        // mark_visited(nr, nc): pre -> mid
        mid.wf(),
        mid.same_shape(pre),
        mid.visited(nr as int, nc as int),
        mid.same_passages(pre),
        mid.cell_at(nr as int, nc as int).right_side == pre.cell_at(
            nr as int,
            nc as int,
        ).right_side,
        mid.cell_at(nr as int, nc as int).bottom_side == pre.cell_at(
            nr as int,
            nc as int,
        ).bottom_side,
        forall|r2: int, c2: int|
            pre.in_bounds(r2, c2) && (r2 != nr as int || c2 != nc as int)
                ==> #[trigger] mid.cell_at(r2, c2) == pre.cell_at(r2, c2),
        // open_passage(row, col, d): mid -> post
        post.wf(),
        post.same_shape(mid),
        post.passage(row as int, col as int, nr as int, nc as int),
        forall|r2: int, c2: int|
            mid.in_bounds(r2, c2) && (r2, c2) != passage_owner(row as int, col as int, d)
                ==> #[trigger] post.cell_at(r2, c2) == mid.cell_at(r2, c2),
        ({
            let (orow, ocol) = passage_owner(row as int, col as int, d);
            if is_vertical(d) {
                post.cell_at(orow, ocol) == (Cell {
                    bottom_side: BottomBoundary::Open,
                    ..mid.cell_at(orow, ocol)
                })
            } else {
                post.cell_at(orow, ocol) == (Cell {
                    right_side: RightBoundary::Open,
                    ..mid.cell_at(orow, ocol)
                })
            }
        }),
        forall|a: int, b: int, x: int, y: int|
            #[trigger] mid.passage(a, b, x, y) ==> post.passage(a, b, x, y),
    ensures
        carve_invariant(m0, post, s.push((nr, nc))),
        visited_count(post) == visited_count(pre) + 1,
{
    let ri = row as int;
    let ci = col as int;
    let nri = nr as int;
    let nci = nc as int;
    let (orow, ocol) = passage_owner(ri, ci, d);
    assert(pre.in_bounds(ri, ci));
    assert(pre.in_bounds(nri, nci));
    assert(orow == ri && ocol == ci || orow == nri && ocol == nci);
    // how the visit markers evolved
    assert forall|r2: int, c2: int| pre.in_bounds(r2, c2) implies (#[trigger] post.visited(r2, c2)
        == (pre.visited(r2, c2) || (r2 == nri && c2 == nci))) by {
        if r2 == orow && c2 == ocol {
            assert(post.cell_at(r2, c2).visit_status == mid.cell_at(r2, c2).visit_status);
        } else {
            assert(post.cell_at(r2, c2) == mid.cell_at(r2, c2));
        }
    }
    // counts: one cell marked, then one wall flag opened
    lemma_counts_update(pre, mid, nri, nci);
    assert(visited_flag(mid.cell_at(nri, nci)) == 1);
    assert(visited_flag(pre.cell_at(nri, nci)) == 0);
    assert(open_flags(mid.cell_at(nri, nci)) == open_flags(pre.cell_at(nri, nci)));
    lemma_counts_update(mid, post, orow, ocol);
    assert(visited_flag(post.cell_at(orow, ocol)) == visited_flag(mid.cell_at(orow, ocol)));
    assert(open_flags(post.cell_at(orow, ocol)) == open_flags(mid.cell_at(orow, ocol)) + 1) by {
        if is_vertical(d) {
            if mid.cell_at(orow, ocol).bottom_side == BottomBoundary::Open {
                assert(pre.cell_at(orow, ocol).bottom_side == BottomBoundary::Open);
                assert(pre.visited(orow, ocol) && pre.visited(orow + 1, ocol));
                assert(false);
            }
        } else {
            if mid.cell_at(orow, ocol).right_side == RightBoundary::Open {
                assert(pre.cell_at(orow, ocol).right_side == RightBoundary::Open);
                assert(pre.visited(orow, ocol) && pre.visited(orow, ocol + 1));
                assert(false);
            }
        }
    }
    assert(visited_count(post) == visited_count(pre) + 1);
    assert(open_count(post) == open_count(pre) + 1);
    lemma_visited_count_bound(pre);
    assert(visited_count(pre) <= pre.num_rows * pre.num_columns - 1);
    // every open flag still joins visited cells
    assert forall|r2: int, c2: int|
        post.in_bounds(r2, c2) && (#[trigger] post.cell_at(r2, c2)).right_side
            == RightBoundary::Open implies post.visited(r2, c2) && post.in_bounds(r2, c2 + 1)
        && post.visited(r2, c2 + 1) by {
        if (r2 == orow && c2 == ocol) && !is_vertical(d) {
            assert(post.passage(ri, ci, nri, nci));
        } else {
            assert(post.cell_at(r2, c2).right_side == pre.cell_at(r2, c2).right_side);
            assert(pre.visited(r2, c2) && pre.in_bounds(r2, c2 + 1) && pre.visited(r2, c2 + 1));
        }
    }
    assert forall|r2: int, c2: int|
        post.in_bounds(r2, c2) && (#[trigger] post.cell_at(r2, c2)).bottom_side
            == BottomBoundary::Open implies post.visited(r2, c2) && post.in_bounds(r2 + 1, c2)
        && post.visited(r2 + 1, c2) by {
        if (r2 == orow && c2 == ocol) && is_vertical(d) {
            assert(post.passage(ri, ci, nri, nci));
        } else {
            assert(post.cell_at(r2, c2).bottom_side == pre.cell_at(r2, c2).bottom_side);
            assert(pre.visited(r2, c2) && pre.in_bounds(r2 + 1, c2) && pre.visited(r2 + 1, c2));
        }
    }
    // connectivity: passages only grew, the fresh cell hangs off the top
    assert forall|a: int, b: int, x: int, y: int| #[trigger] pre.passage(a, b, x, y) implies
        post.passage(a, b, x, y) by {
        assert(mid.passage(a, b, x, y));
    }
    assert forall|r2: int, c2: int|
        post.in_bounds(r2, c2) && #[trigger] post.visited(r2, c2) implies connected(
        post,
        m0.start_row as int,
        0,
        r2,
        c2,
    ) by {
        if r2 == nri && c2 == nci {
            lemma_connected_mono(pre, post, m0.start_row as int, 0, ri, ci);
            lemma_connected_step(post, m0.start_row as int, 0, ri, ci, nri, nci);
        } else {
            assert(pre.visited(r2, c2));
            lemma_connected_mono(pre, post, m0.start_row as int, 0, r2, c2);
        }
    }
    // the closed-region invariant: the only fresh visited cell is on the
    // stack
    let s2 = s.push((nr, nc));
    assert((#[trigger] s2[s2.len() - 1]).0 == nri && s2[s2.len() - 1].1 == nci);
    assert(on_stack(s2, nri, nci));
    assert forall|k: int|
        0 <= k < s2.len() implies post.in_bounds((#[trigger] s2[k]).0 as int, s2[k].1 as int)
        && post.visited(s2[k].0 as int, s2[k].1 as int) by {
        if k < s.len() {
            assert(s2[k] == s[k]);
            assert(pre.visited(s[k].0 as int, s[k].1 as int));
        }
    }
    assert forall|r2: int, c2: int|
        post.in_bounds(r2, c2) && #[trigger] post.visited(r2, c2) && !on_stack(
            s2,
            r2,
            c2,
        ) implies neighbors_done(post, r2, c2) by {
        assert(!(r2 == nri && c2 == nci));
        assert(pre.visited(r2, c2));
        if on_stack(s, r2, c2) {
            let k = choose|k: int|
                0 <= k < s.len() && (#[trigger] s[k]).0 == r2 && s[k].1 == c2;
            assert((#[trigger] s2[k]).0 == r2 && s2[k].1 == c2);
            assert(on_stack(s2, r2, c2));
        }
        assert(neighbors_done(pre, r2, c2));
        assert forall|r3: int, c3: int|
            post.in_bounds(r3, c3) && grid_adjacent(r2, c2, r3, c3) implies #[trigger] post.visited(
            r3,
            c3,
        ) by {
            assert(pre.visited(r3, c3));
        }
    }
}

impl Maze {
    /// Collect the directions in which `(row, col)` has an in-bounds,
    /// not-yet-visited neighbor, in the fixed order up, down, left, right.
    /// An empty result means every neighbor is already visited.
    fn unvisited_neighbors(&self, row: usize, col: usize) -> (poss: Vec<Direction>)
        requires
            self.wf(),
            self.in_bounds(row as int, col as int),
        ensures
            forall|k: int|
                0 <= k < poss@.len() ==> dir_ok(
                    *self,
                    row as int,
                    col as int,
                    #[trigger] poss@[k],
                ),
            poss@.len() == 0 ==> neighbors_done(*self, row as int, col as int),
    {
        let mut poss: Vec<Direction> = Vec::new();
        if row != 0 {
            if !self.is_visited(row - 1, col) {
                poss.push(Direction::Up);
            }
        }
        if row != self.num_rows - 1 {
            if !self.is_visited(row + 1, col) {
                poss.push(Direction::Down);
            }
        }
        if col != 0 {
            if !self.is_visited(row, col - 1) {
                poss.push(Direction::Left);
            }
        }
        if col != self.num_columns - 1 {
            if !self.is_visited(row, col + 1) {
                poss.push(Direction::Right);
            }
        }
        proof {
            if poss@.len() == 0 {
                assert forall|r2: int, c2: int|
                    self.in_bounds(r2, c2) && grid_adjacent(
                        row as int,
                        col as int,
                        r2,
                        c2,
                    ) implies #[trigger] self.visited(r2, c2) by {}
            }
        }
        poss
    }

    /// Carve a perfect maze by randomized depth-first search.
    ///
    /// Starting from a fresh grid, the walk opens a passage exactly when it
    /// moves to a not-yet-visited cell, so the open passages form a
    /// spanning tree: every cell ends up reachable from the entrance, and
    /// exactly `rows * columns - 1` passages are open. The visit markers
    /// are all cleared again before returning, ready for the solving pass.
    pub fn make_maze(&mut self, rng: &mut rand::rngs::StdRng)
        requires
            old(self).wf(),
            old(self).fresh(),
        ensures
            final(self).wf(),
            final(self).same_shape(*old(self)),
            forall|r: int, c: int|
                final(self).in_bounds(r, c) ==> !#[trigger] final(self).visited(r, c),
            open_count(*final(self)) == final(self).num_rows * final(self).num_columns - 1,
            fully_connected(*final(self)),
    {
        let ghost m0 = *self;
        let start = self.start_row;
        self.mark_visited(start, 0);
        let mut stack: Vec<(usize, usize)> = Vec::new();
        stack.push((start, 0));
        proof {
            lemma_counts_fresh(m0);
            lemma_counts_update(m0, *self, start as int, 0);
            lemma_connected_self(*self, start as int, 0);
            lemma_visited_count_bound(*self);
            assert((#[trigger] stack@[0]).0 == start && stack@[0].1 == 0);
            assert(on_stack(stack@, start as int, 0));
            assert forall|r: int, c: int|
                self.in_bounds(r, c) && #[trigger] self.visited(r, c) && !on_stack(
                    stack@,
                    r,
                    c,
                ) implies neighbors_done(*self, r, c) by {
                if r != start as int || c != 0 {
                    assert(m0.cell_at(r, c) == Cell::initial());
                    assert(false);
                }
            }
        }
        while stack.len() != 0
            invariant
                carve_invariant(m0, *self, stack@),
            decreases
                    self.num_rows * self.num_columns - visited_count(*self),
                    stack@.len(),
        {
            let ghost stack0 = stack@;
            let top = stack[stack.len() - 1];
            let row = top.0;
            let col = top.1;
            let poss = self.unvisited_neighbors(row, col);
            if poss.len() == 0 {
                proof {
                    lemma_carve_backtrack(m0, *self, stack0);
                }
                stack.pop();
            } else {
                let pick = gen_index(rng, poss.len());
                let d = poss[pick];
                proof {
                    assert(dir_ok(*self, row as int, col as int, d));
                }
                let nr: usize;
                let nc: usize;
                match d {
                    Direction::Up => {
                        nr = row - 1;
                        nc = col;
                    },
                    Direction::Down => {
                        nr = row + 1;
                        nc = col;
                    },
                    Direction::Left => {
                        nr = row;
                        nc = col - 1;
                    },
                    Direction::Right => {
                        nr = row;
                        nc = col + 1;
                    },
                }
                let ghost pre = *self;
                self.mark_visited(nr, nc);
                let ghost mid = *self;
                self.open_passage(row, col, d);
                stack.push((nr, nc));
                proof {
                    lemma_carve_step(m0, pre, mid, *self, stack0, row, col, nr, nc, d);
                }
            }
        }
        // the stack is empty: the visited region is closed under adjacency,
        // so it covers the grid, and the edge count follows
        proof {
            assert forall|r: int, c: int|
                self.in_bounds(r, c) && #[trigger] self.visited(r, c) implies neighbors_done(
                *self,
                r,
                c,
            ) by {
                assert(!on_stack(stack@, r, c));
            }
            lemma_visited_region_covers(*self);
            assert forall|r: int, c: int| self.in_bounds(r, c) implies (#[trigger] self.cell_at(
                r,
                c,
            )).visit_status == VisitStatus::Visited by {
                assert(self.visited(r, c));
            }
            lemma_visited_count_full(*self);
        }
        let ghost carved = *self;
        self.reset_all_visited();
        proof {
            lemma_open_count_same_passages(carved, *self);
            assert forall|r: int, c: int| self.in_bounds(r, c) implies #[trigger] connected(
                *self,
                m0.start_row as int,
                0,
                r,
                c,
            ) by {
                assert(carved.visited(r, c));
                lemma_connected_same_passages(carved, *self, m0.start_row as int, 0, r, c);
            }
        }
    }
}

/// Whether `(r, c)` occurs in the search queue.
pub open spec fn in_queue(q: Seq<(usize, usize)>, r: int, c: int) -> bool {
    exists|k: int| 0 <= k < q.len() && (#[trigger] q[k]).0 == r && q[k].1 == c
}

/// How many queue entries point at an already-visited cell. Only such an
/// entry can be dequeued without shrinking the unvisited region, and
/// dequeuing it enqueues only unvisited cells, so this is the second
/// component of the search's termination measure.
pub open spec fn visited_entries(m: Maze, q: Seq<(usize, usize)>) -> nat
    decreases q.len(),
{
    if q.len() == 0 {
        0
    } else {
        (if m.visited(q[0].0 as int, q[0].1 as int) {
            1nat
        } else {
            0nat
        }) + visited_entries(m, q.drop_first())
    }
}

proof fn lemma_visited_entries_push(m: Maze, q: Seq<(usize, usize)>, e: (usize, usize))
    ensures
        visited_entries(m, q.push(e)) == visited_entries(m, q) + (if m.visited(
            e.0 as int,
            e.1 as int,
        ) {
            1nat
        } else {
            0nat
        }),
    decreases q.len(),
{
    if q.len() == 0 {
        assert(q.push(e)[0] == e);
        assert(q.push(e).drop_first() =~= q);
        assert(visited_entries(m, q.push(e)) == (if m.visited(e.0 as int, e.1 as int) {
            1nat
        } else {
            0nat
        }) + visited_entries(m, q.push(e).drop_first()));
        assert(visited_entries(m, q) == 0);
    } else {
        assert(q.push(e)[0] == q[0]);
        assert(q.push(e).drop_first() =~= q.drop_first().push(e));
        lemma_visited_entries_push(m, q.drop_first(), e);
    }
}

proof fn lemma_visited_entries_congruent(m1: Maze, m2: Maze, q: Seq<(usize, usize)>)
    requires
        forall|k: int|
            0 <= k < q.len() ==> m2.visited((#[trigger] q[k]).0 as int, q[k].1 as int)
                == m1.visited(q[k].0 as int, q[k].1 as int),
    ensures
        visited_entries(m2, q) == visited_entries(m1, q),
    decreases q.len(),
{
    if q.len() > 0 {
        assert forall|k: int|
            0 <= k < q.drop_first().len() implies m2.visited(
            (#[trigger] q.drop_first()[k]).0 as int,
            q.drop_first()[k].1 as int,
        ) == m1.visited(q.drop_first()[k].0 as int, q.drop_first()[k].1 as int) by {
            assert(q.drop_first()[k] == q[k + 1]);
            assert(m2.visited((#[trigger] q[k + 1]).0 as int, q[k + 1].1 as int) == m1.visited(
                q[k + 1].0 as int,
                q[k + 1].1 as int,
            ));
        }
        lemma_visited_entries_congruent(m1, m2, q.drop_first());
    }
}

/// Append one coordinate to the search queue, carrying the queue's
/// reachability invariant along.
fn enqueue(queue: &mut VecDeque<(usize, usize)>, nr: usize, nc: usize, Ghost(m0): Ghost<Maze>)
    requires
        forall|k: int|
            0 <= k < old(queue)@.len() ==> m0.in_bounds(
                (#[trigger] old(queue)@[k]).0 as int,
                old(queue)@[k].1 as int,
            ) && search_reaches(m0, old(queue)@[k].0 as int, old(queue)@[k].1 as int),
        m0.in_bounds(nr as int, nc as int),
        search_reaches(m0, nr as int, nc as int),
    ensures
        final(queue)@ == old(queue)@.push((nr, nc)),
        in_queue(final(queue)@, nr as int, nc as int),
        forall|r: int, c: int| in_queue(old(queue)@, r, c) ==> in_queue(final(queue)@, r, c),
        forall|k: int|
            0 <= k < final(queue)@.len() ==> m0.in_bounds(
                (#[trigger] final(queue)@[k]).0 as int,
                final(queue)@[k].1 as int,
            ) && search_reaches(m0, final(queue)@[k].0 as int, final(queue)@[k].1 as int),
{
    let ghost q0 = queue@;
    queue.push_back((nr, nc));
    proof {
        let q2 = queue@;
        assert((#[trigger] q2[q2.len() - 1]).0 == nr && q2[q2.len() - 1].1 == nc);
        assert(in_queue(q2, nr as int, nc as int));
        assert forall|r: int, c: int| in_queue(q0, r, c) implies in_queue(q2, r, c) by {
            let k = choose|k: int|
                0 <= k < q0.len() && (#[trigger] q0[k]).0 == r && q0[k].1 == c;
            assert((#[trigger] q2[k]).0 == r && q2[k].1 == c);
        }
        assert forall|k: int| 0 <= k < q2.len() implies m0.in_bounds(
            (#[trigger] q2[k]).0 as int,
            q2[k].1 as int,
        ) && search_reaches(m0, q2[k].0 as int, q2[k].1 as int) by {
            if k < q0.len() {
                assert(q2[k] == q0[k]);
                assert(m0.in_bounds((#[trigger] q0[k]).0 as int, q0[k].1 as int));
            }
        }
    }
}

/// What the search loop maintains: the walls never change; a cell is
/// marked exactly when it started marked or has been dequeued
/// (`processed`); everything processed or enqueued is within the search's
/// reach over the starting grid; the exit has not been processed (or the
/// loop would have returned); and every passage out of a processed cell
/// leads to a marked or enqueued cell.
pub open spec fn solve_invariant(
    m0: Maze,
    m: Maze,
    q: Seq<(usize, usize)>,
    processed: Set<(int, int)>,
) -> bool {
    &&& m.wf()
    &&& m.same_passages(m0)
    &&& visited_count(m) <= m.num_rows * m.num_columns
    &&& forall|r: int, c: int|
        m.in_bounds(r, c) ==> (#[trigger] m.visited(r, c) <==> (m0.visited(r, c)
            || processed.contains((r, c))))
    &&& forall|pt: (int, int)|
        #[trigger] processed.contains(pt) ==> m0.in_bounds(pt.0, pt.1) && search_reaches(
            m0,
            pt.0,
            pt.1,
        )
    &&& forall|k: int|
        0 <= k < q.len() ==> m0.in_bounds((#[trigger] q[k]).0 as int, q[k].1 as int)
            && search_reaches(m0, q[k].0 as int, q[k].1 as int)
    &&& !processed.contains((m0.end_row as int, m0.num_columns - 1))
    &&& (processed.contains((m0.start_row as int, 0int)) || (q.len() == 1 && q[0].0
        == m0.start_row && q[0].1 == 0 && processed =~= Set::<(int, int)>::empty()))
    &&& forall|r: int, c: int, r2: int, c2: int|
        processed.contains((r, c)) && #[trigger] m0.passage(r, c, r2, c2) ==> m.visited(r2, c2)
            || in_queue(q, r2, c2)
}

impl Maze {
    /// Find a route from the entrance to the exit by breadth-first search.
    ///
    /// Cells are marked visited as they are dequeued, and only unmarked
    /// cells behind open passages are enqueued, so the marked region grows
    /// exactly over what the entrance can reach through cells that were
    /// unmarked beforehand. Returns `Ok` precisely when the exit lies in
    /// that region; otherwise the search exhausts it, leaves it fully
    /// marked, and reports `NoPathFound`.
    #[verifier::rlimit(100)]
    pub fn solve_maze(&mut self) -> (res: Result<(), MazeError>)
        requires
            old(self).wf(),
        ensures
            final(self).wf(),
            final(self).same_passages(*old(self)),
            forall|r: int, c: int|
                old(self).in_bounds(r, c) && #[trigger] old(self).visited(r, c)
                    ==> final(self).visited(r, c),
            final(self).visited(final(self).start_row as int, 0),
            forall|r: int, c: int|
                final(self).in_bounds(r, c) && #[trigger] final(self).visited(r, c) ==> old(
                    self,
                ).visited(r, c) || search_reaches(*old(self), r, c),
            res is Ok <==> route_exists(*old(self)),
            res is Ok ==> final(self).visited(
                final(self).end_row as int,
                final(self).num_columns - 1,
            ),
            (res matches Err(e) ==> e == MazeError::NoPathFound),
            res is Err ==> forall|r: int, c: int|
                old(self).in_bounds(r, c) && #[trigger] search_reaches(*old(self), r, c)
                    ==> final(self).visited(r, c),
    {
        let ghost m0 = *self;
        let mut queue: VecDeque<(usize, usize)> = VecDeque::new();
        let entrance = self.start_row;
        queue.push_back((entrance, 0));
        let ghost mut processed: Set<(int, int)> = Set::empty();
        proof {
            lemma_search_reaches_start(m0);
            lemma_visited_count_bound(m0);
            assert((#[trigger] queue@[0]).0 == entrance && queue@[0].1 == 0);
        }
        while queue.len() != 0
            invariant
                m0 == *old(self),
                solve_invariant(m0, *self, queue@, processed),
            decreases
                    self.num_rows * self.num_columns - visited_count(*self),
                    visited_entries(*self, queue@),
        {
            let ghost pre = *self;
            let ghost qfull = queue@;
            let front = match queue.pop_front() {
                Some(x) => x,
                None => vstd::pervasive::unreached(),
            };
            let row = front.0;
            let col = front.1;
            proof {
                assert((#[trigger] qfull[0]).0 == row && qfull[0].1 == col);
                assert(search_reaches(m0, row as int, col as int));
            }
            let ghost processed0 = processed;
            self.mark_visited(row, col);
            proof {
                processed = processed.insert((row as int, col as int));
                lemma_same_passages_trans(m0, pre, *self);
                lemma_same_passages_eq(m0, *self);
                if pre.visited(row as int, col as int) {
                    assert(self.cell_at(row as int, col as int) == pre.cell_at(
                        row as int,
                        col as int,
                    ));
                    lemma_counts_update(pre, *self, row as int, col as int);
                } else {
                    lemma_counts_update(pre, *self, row as int, col as int);
                    lemma_visited_count_bound(pre);
                }
                // visit markers: only the dequeued cell changed, and the
                // processed set only gained that same cell
                assert forall|r: int, c: int| self.in_bounds(r, c) implies (
                #[trigger] self.visited(r, c) <==> (m0.visited(r, c) || processed.contains(
                    (r, c),
                ))) by {
                    if r != row as int || c != col as int {
                        assert(self.cell_at(r, c) == pre.cell_at(r, c));
                        assert(pre.visited(r, c) <==> (m0.visited(r, c) || processed0.contains(
                            (r, c),
                        )));
                    }
                }
                // the entrance is marked by now, whichever shape the
                // invariant's start clause took
                if !processed0.contains((m0.start_row as int, 0int)) {
                    assert(qfull[0].0 == m0.start_row && qfull[0].1 == 0);
                    assert(row as int == m0.start_row as int && col as int == 0);
                }
                assert(processed.contains((m0.start_row as int, 0int)));
                assert(self.visited(m0.start_row as int, 0));
            }
            if row == self.end_row && col == self.num_columns - 1 {
                proof {
                    assert forall|r: int, c: int|
                        self.in_bounds(r, c) && #[trigger] self.visited(r, c) implies m0.visited(
                        r,
                        c,
                    ) || search_reaches(m0, r, c) by {
                        if !m0.visited(r, c) {
                            assert(processed.contains((r, c)));
                        }
                    }
                }
                return Ok(());
            }
            let ghost q1 = queue@;
            proof {
                assert forall|k: int| 0 <= k < q1.len() implies m0.in_bounds(
                    (#[trigger] q1[k]).0 as int,
                    q1[k].1 as int,
                ) && search_reaches(m0, q1[k].0 as int, q1[k].1 as int) by {
                    assert(q1[k] == qfull[k + 1]);
                    assert(m0.in_bounds((#[trigger] qfull[k + 1]).0 as int, qfull[k + 1].1 as int));
                }
            }
            if self.is_open(row, col, Direction::Up) {
                let ur = row - 1;
                if !self.is_visited(ur, col) {
                    proof {
                        assert(m0.passage(row as int, col as int, ur as int, col as int));
                        assert(!m0.visited(ur as int, col as int));
                        lemma_search_reach_step(
                            m0,
                            row as int,
                            col as int,
                            ur as int,
                            col as int,
                        );
                    }
                    let ghost qb = queue@;
                    enqueue(&mut queue, ur, col, Ghost(m0));
                    proof {
                        lemma_visited_entries_push(*self, qb, (ur, col));
                    }
                }
            }
            if row < self.num_rows - 1 {
                if self.is_open(row, col, Direction::Down) {
                    let dr = row + 1;
                    if !self.is_visited(dr, col) {
                        proof {
                            assert(m0.passage(row as int, col as int, dr as int, col as int));
                            assert(!m0.visited(dr as int, col as int));
                            lemma_search_reach_step(
                                m0,
                                row as int,
                                col as int,
                                dr as int,
                                col as int,
                            );
                        }
                        let ghost qb = queue@;
                        enqueue(&mut queue, dr, col, Ghost(m0));
                        proof {
                            lemma_visited_entries_push(*self, qb, (dr, col));
                        }
                    }
                }
            }
            if self.is_open(row, col, Direction::Left) {
                let lc = col - 1;
                if !self.is_visited(row, lc) {
                    proof {
                        assert(m0.passage(row as int, col as int, row as int, lc as int));
                        assert(!m0.visited(row as int, lc as int));
                        lemma_search_reach_step(
                            m0,
                            row as int,
                            col as int,
                            row as int,
                            lc as int,
                        );
                    }
                    let ghost qb = queue@;
                    enqueue(&mut queue, row, lc, Ghost(m0));
                    proof {
                        lemma_visited_entries_push(*self, qb, (row, lc));
                    }
                }
            }
            if col < self.num_columns - 1 {
                if self.is_open(row, col, Direction::Right) {
                    let rc = col + 1;
                    if !self.is_visited(row, rc) {
                        proof {
                            assert(m0.passage(row as int, col as int, row as int, rc as int));
                            assert(!m0.visited(row as int, rc as int));
                            lemma_search_reach_step(
                                m0,
                                row as int,
                                col as int,
                                row as int,
                                rc as int,
                            );
                        }
                        let ghost qb = queue@;
                        enqueue(&mut queue, row, rc, Ghost(m0));
                        proof {
                            lemma_visited_entries_push(*self, qb, (row, rc));
                        }
                    }
                }
            }
            proof {
                let qf = queue@;
                let xr = row as int;
                let xc = col as int;
                // the four expansion checks cover every passage out of the
                // dequeued cell
                assert(m0.passage(xr, xc, xr - 1, xc) ==> self.visited(xr - 1, xc) || in_queue(
                    qf,
                    xr - 1,
                    xc,
                ));
                assert(m0.passage(xr, xc, xr + 1, xc) ==> self.visited(xr + 1, xc) || in_queue(
                    qf,
                    xr + 1,
                    xc,
                ));
                assert(m0.passage(xr, xc, xr, xc - 1) ==> self.visited(xr, xc - 1) || in_queue(
                    qf,
                    xr,
                    xc - 1,
                ));
                assert(m0.passage(xr, xc, xr, xc + 1) ==> self.visited(xr, xc + 1) || in_queue(
                    qf,
                    xr,
                    xc + 1,
                ));
                assert forall|r: int, c: int, r2: int, c2: int|
                    processed.contains((r, c)) && #[trigger] m0.passage(
                        r,
                        c,
                        r2,
                        c2,
                    ) implies self.visited(r2, c2) || in_queue(qf, r2, c2) by {
                    if r == xr && c == xc {
                    } else {
                        assert(pre.visited(r2, c2) || in_queue(qfull, r2, c2));
                        if !pre.visited(r2, c2) {
                            let k = choose|k: int|
                                0 <= k < qfull.len() && (#[trigger] qfull[k]).0 == r2
                                    && qfull[k].1 == c2;
                            if k == 0 {
                                assert(self.visited(r2, c2));
                            } else {
                                assert((#[trigger] q1[k - 1]).0 == r2 && q1[k - 1].1 == c2);
                                assert(in_queue(q1, r2, c2));
                            }
                        }
                    }
                }
                assert(!processed.contains((m0.end_row as int, m0.num_columns - 1)));
                assert(processed.contains((m0.start_row as int, 0int)));
                // termination: a dequeued unmarked cell shrinks the
                // unvisited region; a dequeued marked cell shrinks the
                // count of marked queue entries
                if pre.visited(xr, xc) {
                    assert(qfull.drop_first() =~= q1);
                    assert forall|k: int| 0 <= k < q1.len() implies self.visited(
                        (#[trigger] q1[k]).0 as int,
                        q1[k].1 as int,
                    ) == pre.visited(q1[k].0 as int, q1[k].1 as int) by {
                        assert(m0.in_bounds((#[trigger] q1[k]).0 as int, q1[k].1 as int));
                        if q1[k].0 as int != xr || q1[k].1 as int != xc {
                            assert(self.cell_at(q1[k].0 as int, q1[k].1 as int) == pre.cell_at(
                                q1[k].0 as int,
                                q1[k].1 as int,
                            ));
                        }
                    }
                    lemma_visited_entries_congruent(pre, *self, q1);
                    assert(visited_entries(pre, qfull) == 1 + visited_entries(pre, q1));
                }
            }
        }
        proof {
            // the queue is exhausted: everything the search could reach
            // has been processed
            assert(processed.contains((m0.start_row as int, 0int)));
            assert forall|r: int, c: int, r2: int, c2: int|
                processed.contains((r, c)) && #[trigger] m0.passage(
                    r,
                    c,
                    r2,
                    c2,
                ) implies m0.visited(r2, c2) || processed.contains((r2, c2)) by {
                assert(self.visited(r2, c2) || in_queue(queue@, r2, c2));
            }
            assert forall|r: int, c: int|
                m0.in_bounds(r, c) && #[trigger] search_reaches(m0, r, c) implies
                processed.contains((r, c)) by {
                let p = choose|p: Seq<(int, int)>|
                    #[trigger] search_path(m0, p) && p[p.len() - 1] == (r, c);
                lemma_processed_covers_path(m0, processed, p);
            }
            assert(!route_exists(m0));
            assert forall|r: int, c: int|
                self.in_bounds(r, c) && #[trigger] self.visited(r, c) implies m0.visited(r, c)
                || search_reaches(m0, r, c) by {
                if !m0.visited(r, c) {
                    assert(processed.contains((r, c)));
                }
            }
        }
        Err(MazeError::NoPathFound)
    }
}

} // verus!
