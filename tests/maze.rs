use maze::vec_set::VecSet;
use maze::{Cell, Direction, Maze, MazeError};

fn passable(m: &Maze, r: usize, c: usize) -> bool {
    m.grid[r][c] != Cell::Wall
}

fn reachable_vertices(m: &Maze) -> usize {
    reachable_without(m, (usize::MAX, usize::MAX))
}

/// Vertex cells reached from the start by a plain flood fill that treats the
/// cell `closed` as a wall.
fn reachable_without(m: &Maze, closed: (usize, usize)) -> usize {
    let passable = |m: &Maze, r: usize, c: usize| (r, c) != closed && passable(m, r, c);
    let hh = m.height / 2 + 1;
    let hw = m.width / 2 + 1;
    let mut seen = vec![vec![false; hw]; hh];
    let mut stack = vec![(0usize, 0usize)];
    seen[0][0] = true;
    let mut count = 0;
    while let Some((r, c)) = stack.pop() {
        count += 1;
        let mut next = Vec::new();
        if r > 0 && passable(m, 2 * r - 1, 2 * c) {
            next.push((r - 1, c));
        }
        if r + 1 < hh && passable(m, 2 * r + 1, 2 * c) {
            next.push((r + 1, c));
        }
        if c > 0 && passable(m, 2 * r, 2 * c - 1) {
            next.push((r, c - 1));
        }
        if c + 1 < hw && passable(m, 2 * r, 2 * c + 1) {
            next.push((r, c + 1));
        }
        for (nr, nc) in next {
            if !seen[nr][nc] {
                seen[nr][nc] = true;
                stack.push((nr, nc));
            }
        }
    }
    count
}

fn passage_count(m: &Maze) -> usize {
    let mut n = 0;
    for r in 0..m.height {
        for c in 0..m.width {
            if (r % 2 == 1) != (c % 2 == 1) && passable(m, r, c) {
                n += 1;
            }
        }
    }
    n
}

fn assert_spanning(hw: usize, hh: usize) {
    let m = Maze::generate_random(hw, hh);
    assert_eq!(reachable_vertices(&m), hw * hh);
    assert_eq!(passage_count(&m) + 1, hw * hh);
    // Closing any one passage cuts the maze in two: there are no cycles.
    for r in 0..m.height {
        for c in 0..m.width {
            if (r % 2 == 1) != (c % 2 == 1) && passable(&m, r, c) {
                assert!(reachable_without(&m, (r, c)) < hw * hh);
            }
        }
    }
    for r in 0..m.height {
        for c in 0..m.width {
            if r % 2 == 1 && c % 2 == 1 {
                assert_eq!(m.grid[r][c], Cell::Wall);
            }
            if r % 2 == 0 && c % 2 == 0 {
                assert_ne!(m.grid[r][c], Cell::Wall);
            }
        }
    }
}

#[test]
fn spanning_tree_over_many_sizes() {
    for hw in 1..7 {
        for hh in 1..7 {
            for _ in 0..5 {
                assert_spanning(hw, hh);
            }
        }
    }
    assert_spanning(30, 20);
}

#[test]
fn dimensions_follow_half_sizes() {
    let m = Maze::generate_random(3, 2);
    assert_eq!(m.width, 5);
    assert_eq!(m.height, 3);
    assert_eq!(m.grid.len(), 3);
    assert!(m.grid.iter().all(|row| row.len() == 5));
    let m = Maze::generate_random(10, 6);
    assert_eq!(m.width, 19);
    assert_eq!(m.height, 11);
}

#[test]
fn corners_hold_cursor_and_goal() {
    for (hw, hh) in [(2, 2), (3, 2), (1, 4), (5, 1), (7, 7)] {
        let m = Maze::generate_random(hw, hh);
        assert_eq!(m.grid[0][0], Cell::Cursor);
        assert_eq!(m.grid[m.height - 1][m.width - 1], Cell::Goal);
        assert_eq!(m.cursor, (0, 0));
        assert_eq!(m.goal, (m.height - 1, m.width - 1));
        assert!(!m.is_done());
    }
}

#[test]
fn single_cell_maze_is_already_solved() {
    let m = Maze::generate_random(1, 1);
    assert_eq!(m.height, 1);
    assert_eq!(m.width, 1);
    assert_eq!(m.grid, vec![vec![Cell::Cursor]]);
    assert!(m.is_done());
}

#[test]
fn flip_twice() {
    assert_eq!(Cell::Empty.flip(), Cell::Visited);
    assert_eq!(Cell::Empty.flip().flip(), Cell::Empty);
    assert_eq!(Cell::Visited.flip(), Cell::Empty);
    assert_eq!(Cell::Goal.flip(), Cell::Visited);
    assert_eq!(Cell::Goal.flip().flip(), Cell::Empty);
}

#[test]
fn moves_into_walls_or_off_the_grid_change_nothing() {
    for _ in 0..20 {
        let mut m = Maze::generate_random(4, 3);
        let grid = m.grid.clone();
        m.move_cursor(Direction::Up);
        assert_eq!(m.cursor, (0, 0));
        assert_eq!(m.grid, grid);
        m.move_cursor(Direction::Left);
        assert_eq!(m.cursor, (0, 0));
        assert_eq!(m.grid, grid);
        if m.grid[0][1] == Cell::Wall {
            m.move_cursor(Direction::Right);
            assert_eq!(m.cursor, (0, 0));
            assert_eq!(m.grid, grid);
        }
        if m.grid[1][0] == Cell::Wall {
            m.move_cursor(Direction::Down);
            assert_eq!(m.cursor, (0, 0));
            assert_eq!(m.grid, grid);
        }
    }
}

#[test]
fn moves_mark_and_unmark_the_trail() {
    // One row of two vertex cells: the only tree opens the cell between them.
    let mut m = Maze::generate_random(2, 1);
    assert_eq!(m.grid, vec![vec![Cell::Cursor, Cell::Empty, Cell::Goal]]);
    m.move_cursor(Direction::Right);
    assert_eq!(m.grid, vec![vec![Cell::Visited, Cell::Cursor, Cell::Goal]]);
    m.move_cursor(Direction::Left);
    assert_eq!(m.grid, vec![vec![Cell::Cursor, Cell::Empty, Cell::Goal]]);
    m.move_cursor(Direction::Right);
    m.move_cursor(Direction::Right);
    assert_eq!(m.grid, vec![vec![Cell::Visited, Cell::Visited, Cell::Cursor]]);
    assert_eq!(m.cursor, (0, 2));
    assert!(m.is_done());
}

#[test]
fn moves_after_completion_are_no_ops() {
    let mut m = Maze::generate_random(1, 3);
    for _ in 0..4 {
        m.move_cursor(Direction::Down);
    }
    assert!(m.is_done());
    let grid = m.grid.clone();
    for d in [Direction::Up, Direction::Down, Direction::Left, Direction::Right] {
        m.move_cursor(d);
        assert!(m.is_done());
        assert_eq!(m.cursor, (4, 0));
        assert_eq!(m.grid, grid);
    }
}

#[test]
fn two_by_two_scenario() {
    for _ in 0..20 {
        let mut m = Maze::generate_random(2, 2);
        assert_eq!(m.width, 3);
        assert_eq!(m.height, 3);
        assert_eq!(reachable_vertices(&m), 4);
        assert_eq!(m.grid[0][0], Cell::Cursor);
        assert_eq!(m.grid[2][2], Cell::Goal);
        assert!(m.grid[0][1] == Cell::Empty || m.grid[1][0] == Cell::Empty);
        let open = m.grid[0][1] == Cell::Empty && m.grid[1][2] == Cell::Empty;
        m.move_cursor(Direction::Right);
        m.move_cursor(Direction::Right);
        m.move_cursor(Direction::Down);
        m.move_cursor(Direction::Down);
        assert_eq!(m.is_done(), open);
    }
}

#[test]
fn reset_keeps_the_size() {
    let mut m = Maze::generate_random(6, 4);
    m.move_cursor(Direction::Right);
    m.move_cursor(Direction::Down);
    m.reset();
    assert_eq!(m.width, 11);
    assert_eq!(m.height, 7);
    assert_eq!(m.cursor, (0, 0));
    assert_eq!(m.grid[0][0], Cell::Cursor);
    assert_eq!(m.grid[6][10], Cell::Goal);
    assert_eq!(reachable_vertices(&m), 24);
}

#[test]
fn cell_at_reads_the_grid() {
    let m = Maze::generate_random(3, 3);
    assert_eq!(m.cell_at(0, 0), Cell::Cursor);
    assert_eq!(m.cell_at(4, 4), Cell::Goal);
    assert_eq!(m.cell_at(1, 1), Cell::Wall);
    assert_eq!(m.cell_at(2, 2), Cell::Empty);
}

#[test]
fn vec_set_keeps_each_edge_once() {
    let mut s = VecSet::new(2, 2);
    assert!(s.is_empty());
    s.insert(((0, 0), (0, 1)));
    s.insert(((0, 0), (0, 1)));
    s.insert(((0, 0), (1, 0)));
    assert!(!s.is_empty());
    let a = s.remove_random();
    let b = s.remove_random();
    assert!(s.is_empty());
    assert_ne!(a, b);
    let mut got = vec![a, b];
    got.sort();
    assert_eq!(got, vec![((0, 0), (0, 1)), ((0, 0), (1, 0))]);
}

#[test]
fn vec_set_removes_what_it_returns() {
    let mut s = VecSet::new(3, 3);
    s.insert(((1, 1), (0, 1)));
    s.insert(((1, 1), (2, 1)));
    s.insert(((1, 1), (1, 0)));
    s.insert(((1, 1), (1, 2)));
    let mut got = Vec::new();
    while !s.is_empty() {
        got.push(s.remove_random());
    }
    got.sort();
    assert_eq!(
        got,
        vec![((1, 1), (0, 1)), ((1, 1), (1, 0)), ((1, 1), (1, 2)), ((1, 1), (2, 1))]
    );
    s.insert(((1, 1), (0, 1)));
    assert_eq!(s.remove_random(), ((1, 1), (0, 1)));
}

#[test]
fn zero_sizes_are_rejected() {
    assert_eq!(Maze::generate(0, 3).err(), Some(MazeError::InvalidDimension));
    assert_eq!(Maze::generate(4, 0).err(), Some(MazeError::InvalidDimension));
    assert_eq!(Maze::generate(0, 0).err(), Some(MazeError::InvalidDimension));
    let m = Maze::generate(3, 2).ok().unwrap();
    assert_eq!(m.width, 5);
    assert_eq!(m.height, 3);
    assert_eq!(reachable_vertices(&m), 6);
}
