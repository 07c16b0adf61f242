use maze::{Cell, Direction, Maze, MazeError, VisitStatus};
use rand::rngs::StdRng;
use rand::SeedableRng;

fn new_rng(seed: u64) -> StdRng {
    StdRng::seed_from_u64(seed)
}

/// Count open passages once each: every passage is owned by its upper or
/// left cell, so counting Right and Down over all cells sees each once.
fn count_passages(m: &Maze) -> usize {
    let mut n: usize = 0;
    for r in 0..m.num_rows {
        for c in 0..m.num_columns {
            if m.is_open(r, c, Direction::Right) {
                n += 1;
            }
            if m.is_open(r, c, Direction::Down) {
                n += 1;
            }
        }
    }
    n
}

/// Flood-fill from the entrance over open passages; returns how many cells
/// are reachable.
fn reachable_cells(m: &Maze) -> usize {
    let cols = m.num_columns;
    let mut seen = vec![false; m.num_rows * cols];
    let mut stack = vec![(m.start_row, 0usize)];
    seen[m.start_row * cols] = true;
    let mut count: usize = 0;
    while let Some((r, c)) = stack.pop() {
        count += 1;
        for d in [Direction::Up, Direction::Down, Direction::Left, Direction::Right] {
            if m.is_open(r, c, d) {
                let (nr, nc) = match d {
                    Direction::Up => (r - 1, c),
                    Direction::Down => (r + 1, c),
                    Direction::Left => (r, c - 1),
                    Direction::Right => (r, c + 1),
                };
                if !seen[nr * cols + nc] {
                    seen[nr * cols + nc] = true;
                    stack.push((nr, nc));
                }
            }
        }
    }
    count
}

#[test]
fn cell_build_is_fresh() {
    let c = Cell::build();
    assert!(c.visit_status == VisitStatus::NotVisited);
    assert!(!matches!(c.right_side, maze::RightBoundary::Open));
    assert!(!matches!(c.bottom_side, maze::BottomBoundary::Open));
}

#[test]
fn zero_dimensions_are_rejected() {
    let mut rng = new_rng(1);
    assert_eq!(
        Maze::build_custom(&mut rng, 0, 5).unwrap_err(),
        MazeError::InvalidDimensions
    );
    assert_eq!(
        Maze::build_custom(&mut rng, 5, 0).unwrap_err(),
        MazeError::InvalidDimensions
    );
    assert_eq!(
        Maze::build_custom(&mut rng, 0, 0).unwrap_err(),
        MazeError::InvalidDimensions
    );
}

#[test]
fn fresh_grid_is_closed_and_unvisited() {
    let mut rng = new_rng(7);
    let m = Maze::build_custom(&mut rng, 3, 4).unwrap();
    assert_eq!(m.num_rows, 3);
    assert_eq!(m.num_columns, 4);
    assert_eq!(count_passages(&m), 0);
    for r in 0..3 {
        for c in 0..4 {
            assert!(!m.is_visited(r, c));
        }
    }
}

#[test]
fn entrance_and_exit_rows_are_in_range() {
    for seed in 0..50 {
        let mut rng = new_rng(seed);
        let m = Maze::build_custom(&mut rng, 3, 3).unwrap();
        assert!(m.start_row < 3);
        assert!(m.end_row < 3);
    }
}

#[test]
fn default_build_is_five_by_five() {
    let mut rng = new_rng(11);
    let m = Maze::build(&mut rng);
    assert_eq!(m.num_rows, 5);
    assert_eq!(m.num_columns, 5);
    assert_eq!(count_passages(&m), 0);
}

#[test]
fn generated_maze_has_spanning_tree_edge_count() {
    for (seed, rows, cols) in [(0u64, 1, 1), (1, 2, 2), (2, 5, 5), (3, 3, 7), (4, 7, 3)] {
        let mut rng = new_rng(seed);
        let mut m = Maze::build_custom(&mut rng, rows, cols).unwrap();
        m.make_maze(&mut rng);
        assert_eq!(count_passages(&m), rows * cols - 1);
    }
}

#[test]
fn generated_maze_is_fully_connected() {
    for (seed, rows, cols) in [(5u64, 5, 5), (6, 4, 6), (7, 1, 8), (8, 6, 1)] {
        let mut rng = new_rng(seed);
        let mut m = Maze::build_custom(&mut rng, rows, cols).unwrap();
        m.make_maze(&mut rng);
        assert_eq!(reachable_cells(&m), rows * cols);
    }
}

#[test]
fn generation_resets_visit_markers() {
    let mut rng = new_rng(9);
    let mut m = Maze::build_custom(&mut rng, 4, 4).unwrap();
    m.make_maze(&mut rng);
    for r in 0..4 {
        for c in 0..4 {
            assert!(!m.is_visited(r, c));
        }
    }
}

#[test]
fn solve_reaches_exit_and_marks_route() {
    let mut rng = new_rng(13);
    let mut m = Maze::build_custom(&mut rng, 5, 5).unwrap();
    m.make_maze(&mut rng);
    assert!(m.solve_maze().is_ok());
    assert!(m.is_visited(m.start_row, 0));
    assert!(m.is_visited(m.end_row, m.num_columns - 1));
}

#[test]
fn one_by_one_trivial_scenario() {
    let mut rng = new_rng(21);
    let mut m = Maze::build_custom(&mut rng, 1, 1).unwrap();
    assert_eq!(m.start_row, 0);
    assert_eq!(m.end_row, 0);
    m.make_maze(&mut rng);
    assert_eq!(count_passages(&m), 0);
    assert!(m.solve_maze().is_ok());
    assert!(m.is_visited(0, 0));
    // solving again without a reset: everything already visited, the
    // entrance is itself the exit, so it succeeds again and changes nothing
    assert!(m.solve_maze().is_ok());
    assert!(m.is_visited(0, 0));
    assert_eq!(count_passages(&m), 0);
}

#[test]
fn second_solve_without_reset_finds_no_new_route() {
    let mut rng = new_rng(23);
    let mut m = Maze::build_custom(&mut rng, 2, 2).unwrap();
    m.make_maze(&mut rng);
    assert!(m.solve_maze().is_ok());
    let visited_before: Vec<bool> =
        (0..2).flat_map(|r| (0..2).map(move |c| (r, c))).map(|(r, c)| m.is_visited(r, c)).collect();
    // the exit is already marked, so the guarded search cannot reach it a
    // second time
    assert_eq!(m.solve_maze().unwrap_err(), MazeError::NoPathFound);
    // markers can only have grown
    let visited_after: Vec<bool> =
        (0..2).flat_map(|r| (0..2).map(move |c| (r, c))).map(|(r, c)| m.is_visited(r, c)).collect();
    for (before, after) in visited_before.iter().zip(visited_after.iter()) {
        assert!(*after || !*before);
    }
}

#[test]
fn unsolved_fresh_grid_reports_no_path() {
    let mut rng = new_rng(25);
    let mut m = Maze::build_custom(&mut rng, 2, 2).unwrap();
    // no carving: all walls closed, the exit column is unreachable
    assert_eq!(m.solve_maze().unwrap_err(), MazeError::NoPathFound);
    let mut one = Maze::build_custom(&mut rng, 1, 1).unwrap();
    // a single cell is both entrance and exit even with no passages
    assert!(one.solve_maze().is_ok());
}

#[test]
fn fixed_seed_reproduces_generation_exactly() {
    let build = |seed: u64| {
        let mut rng = new_rng(seed);
        let mut m = Maze::build_custom(&mut rng, 4, 4).unwrap();
        m.make_maze(&mut rng);
        m
    };
    let a = build(42);
    let b = build(42);
    assert_eq!(a.start_row, b.start_row);
    assert_eq!(a.end_row, b.end_row);
    for r in 0..4 {
        for c in 0..4 {
            assert_eq!(
                a.is_open(r, c, Direction::Right),
                b.is_open(r, c, Direction::Right)
            );
            assert_eq!(
                a.is_open(r, c, Direction::Down),
                b.is_open(r, c, Direction::Down)
            );
        }
    }
    let mut a2 = a;
    let mut b2 = b;
    assert_eq!(a2.solve_maze().is_ok(), b2.solve_maze().is_ok());
    for r in 0..4 {
        for c in 0..4 {
            assert_eq!(a2.is_visited(r, c), b2.is_visited(r, c));
        }
    }
}

#[test]
fn two_by_two_seeded_scenario() {
    // find a seed whose 2x2 maze enters at row 0 and exits at row 1
    let mut chosen = None;
    for seed in 0..1000u64 {
        let mut rng = new_rng(seed);
        let m = Maze::build_custom(&mut rng, 2, 2).unwrap();
        if m.start_row == 0 && m.end_row == 1 {
            chosen = Some(seed);
            break;
        }
    }
    let seed = chosen.expect("some small seed gives start_row 0 and end_row 1");
    let mut rng = new_rng(seed);
    let mut m = Maze::build_custom(&mut rng, 2, 2).unwrap();
    m.make_maze(&mut rng);
    // exactly three of the four possible passages are open
    let ab = m.is_open(0, 0, Direction::Right);
    let ac = m.is_open(0, 0, Direction::Down);
    let bd = m.is_open(0, 1, Direction::Down);
    let cd = m.is_open(1, 0, Direction::Right);
    assert_eq!(
        [ab, ac, bd, cd].iter().filter(|&&open| open).count(),
        3
    );
    assert!(m.solve_maze().is_ok());
    // the search marks exactly the cells it dequeues before meeting the
    // exit; which those are is fixed by which passage is missing
    assert!(m.is_visited(0, 0));
    assert!(m.is_visited(1, 1));
    if !ab {
        assert!(m.is_visited(1, 0));
        assert!(!m.is_visited(0, 1));
    } else if !ac {
        assert!(m.is_visited(0, 1));
        assert!(!m.is_visited(1, 0));
    } else {
        assert!(m.is_visited(0, 1));
        assert!(m.is_visited(1, 0));
    }
}

#[test]
fn boundary_queries_never_leave_the_grid() {
    let mut rng = new_rng(31);
    let mut m = Maze::build_custom(&mut rng, 3, 3).unwrap();
    m.make_maze(&mut rng);
    for c in 0..3 {
        assert!(!m.neighbor_exists(0, c, Direction::Up));
        assert!(!m.is_open(0, c, Direction::Up));
        assert!(!m.neighbor_exists(2, c, Direction::Down));
        assert!(!m.is_open(2, c, Direction::Down));
    }
    for r in 0..3 {
        assert!(!m.neighbor_exists(r, 0, Direction::Left));
        assert!(!m.is_open(r, 0, Direction::Left));
        assert!(!m.neighbor_exists(r, 2, Direction::Right));
        assert!(!m.is_open(r, 2, Direction::Right));
    }
    // coordinates beyond the grid are answered, not a crash
    assert!(!m.neighbor_exists(9, 9, Direction::Up));
    assert!(!m.is_open(9, 9, Direction::Right));
    assert!(!m.is_visited(9, 9));
    let one_rng = &mut new_rng(32);
    let one = Maze::build_custom(one_rng, 1, 1).unwrap();
    for d in [Direction::Up, Direction::Down, Direction::Left, Direction::Right] {
        assert!(!one.neighbor_exists(0, 0, d));
        assert!(!one.is_open(0, 0, d));
    }
}

#[test]
fn passages_are_stored_on_the_owning_cell() {
    let mut rng = new_rng(33);
    let mut m = Maze::build_custom(&mut rng, 2, 2).unwrap();
    m.open_passage(0, 0, Direction::Right);
    assert!(m.is_open(0, 0, Direction::Right));
    assert!(m.is_open(0, 1, Direction::Left));
    m.open_passage(1, 0, Direction::Up);
    assert!(m.is_open(1, 0, Direction::Up));
    assert!(m.is_open(0, 0, Direction::Down));
    assert!(!m.is_open(0, 1, Direction::Down));
    m.mark_visited(1, 1);
    assert!(m.is_visited(1, 1));
    assert!(!m.is_visited(0, 0));
}

#[test]
fn full_reset_allows_regeneration() {
    let mut rng = new_rng(35);
    let mut m = Maze::build_custom(&mut rng, 4, 4).unwrap();
    m.make_maze(&mut rng);
    assert!(m.solve_maze().is_ok());
    m.reset_maze();
    assert_eq!(count_passages(&m), 0);
    for r in 0..4 {
        for c in 0..4 {
            assert!(!m.is_visited(r, c));
        }
    }
    let (start, end) = (m.start_row, m.end_row);
    m.make_maze(&mut rng);
    assert_eq!(count_passages(&m), 15);
    assert_eq!(reachable_cells(&m), 16);
    // regeneration never reselects the entrance or exit
    assert_eq!(m.start_row, start);
    assert_eq!(m.end_row, end);
}

#[test]
fn visited_reset_keeps_walls() {
    let mut rng = new_rng(37);
    let mut m = Maze::build_custom(&mut rng, 4, 4).unwrap();
    m.make_maze(&mut rng);
    assert!(m.solve_maze().is_ok());
    let before: Vec<bool> = (0..4)
        .flat_map(|r| (0..4).map(move |c| (r, c)))
        .flat_map(|(r, c)| {
            [m.is_open(r, c, Direction::Right), m.is_open(r, c, Direction::Down)]
        })
        .collect();
    m.reset_all_visited();
    for r in 0..4 {
        for c in 0..4 {
            assert!(!m.is_visited(r, c));
        }
    }
    let after: Vec<bool> = (0..4)
        .flat_map(|r| (0..4).map(move |c| (r, c)))
        .flat_map(|(r, c)| {
            [m.is_open(r, c, Direction::Right), m.is_open(r, c, Direction::Down)]
        })
        .collect();
    assert_eq!(before, after);
    // and the maze can be solved afresh
    assert!(m.solve_maze().is_ok());
}
