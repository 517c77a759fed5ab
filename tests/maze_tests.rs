use maze_routing::map::{BACKTRACK, PATH, SOLUTION, START, VISITED, WALL};
use maze_routing::{CellState, Maze};

/// Open walls between logical cells (one coordinate odd, the other even and
/// strictly between two logical cells).
fn open_walls(map: &Maze) -> usize {
    let mut count = 0;
    for y in 1..map.n {
        for x in 1..map.m {
            let horizontal = x % 2 == 0 && y % 2 == 1 && x + 1 < map.m && y < map.n;
            let vertical = x % 2 == 1 && y % 2 == 0 && y + 1 < map.n && x < map.m;
            if (horizontal || vertical) && map.get_cell(x, y) == PATH {
                count += 1;
            }
        }
    }
    count
}

fn logical_cells(map: &Maze) -> Vec<(i32, i32)> {
    let mut cells = Vec::new();
    let mut y = 1;
    while y < map.n {
        let mut x = 1;
        while x < map.m {
            cells.push((x, y));
            x += 2;
        }
        y += 2;
    }
    cells
}

/// Cells reachable from `from` through open cells, by flood fill.
fn flood(map: &Maze, from: (i32, i32)) -> Vec<Vec<i32>> {
    let mut dist = vec![vec![-1; (map.m + 1) as usize]; (map.n + 1) as usize];
    let mut queue = std::collections::VecDeque::new();
    dist[from.1 as usize][from.0 as usize] = 0;
    queue.push_back(from);
    while let Some((x, y)) = queue.pop_front() {
        for (dx, dy) in [(0, 1), (1, 0), (0, -1), (-1, 0)] {
            let (nx, ny) = (x + dx, y + dy);
            if map.is_passable(nx, ny) && dist[ny as usize][nx as usize] < 0 {
                dist[ny as usize][nx as usize] = dist[y as usize][x as usize] + 1;
                queue.push_back((nx, ny));
            }
        }
    }
    dist
}

#[test]
fn test_map_creation() {
    let map = Maze::new();
    assert_eq!(map.m, 56);
    assert_eq!(map.n, 56);
    assert_eq!(map.sx, 1);
    assert_eq!(map.sy, 1);
}

#[test]
fn test_in_bounds() {
    let map = Maze::with_size(10, 10, 100, 100);
    assert!(map.in_bounds(1, 1));
    assert!(map.in_bounds(10, 10));
    assert!(!map.in_bounds(0, 0));
    assert!(!map.in_bounds(11, 11));
}

#[test]
fn six_by_six_opens_eight_walls() {
    for _ in 0..20 {
        let map = Maze::with_size(6, 6, 60, 60);
        assert_eq!(logical_cells(&map).len(), 9);
        assert_eq!(open_walls(&map), 8);
    }
}

#[test]
fn generated_maze_is_a_spanning_tree() {
    for (m, n) in [(10, 10), (7, 9), (20, 12), (2, 2), (56, 56)] {
        let map = Maze::with_size(m, n, 100, 100);
        let cells = logical_cells(&map);
        assert_eq!(open_walls(&map), cells.len() - 1);
        let dist = flood(&map, (1, 1));
        for (x, y) in cells {
            assert!(dist[y as usize][x as usize] >= 0, "cell ({}, {}) not connected", x, y);
        }
    }
}

#[test]
fn generated_maze_holds_only_walls_and_paths() {
    let map = Maze::with_size(15, 11, 150, 110);
    for row in &map.grid {
        for &v in row {
            assert!(v == PATH || v == WALL);
        }
    }
    assert_eq!(map.get_cell(1, 1), PATH);
    assert_eq!(map.get_cell(14, 10), PATH);
    assert_eq!(map.start(), (1, 1));
    assert_eq!(map.end(), (14, 10));
}

#[test]
fn open_cells_are_logical_cells_and_walls_between_them() {
    for (m, n) in [(10, 10), (9, 7), (6, 12)] {
        let map = Maze::with_size(m, n, 100, 100);
        for y in 0..=n {
            for x in 0..=m {
                let v = map.grid[y as usize][x as usize];
                assert!(v == PATH || v == WALL);
                if v == PATH {
                    let logical = x % 2 == 1 && y % 2 == 1 && x < m && y < n;
                    let wall = (x % 2 == 0 && y % 2 == 1 && x >= 2 && x + 1 < m && y < n)
                        || (x % 2 == 1 && y % 2 == 0 && y >= 2 && y + 1 < n && x < m);
                    assert!(logical || wall || (x, y) == (m - 1, n - 1), "({}, {}) open", x, y);
                }
            }
        }
        if m % 2 == 0 && n % 2 == 0 {
            let dist = flood(&map, (1, 1));
            for y in 1..=n {
                for x in 1..=m {
                    if map.is_passable(x, y) {
                        assert!(dist[y as usize][x as usize] >= 0);
                    }
                }
            }
        }
    }
}

#[test]
fn generation_is_random() {
    let mazes: Vec<Maze> = (0..6).map(|_| Maze::with_size(20, 20, 200, 200)).collect();
    let first = &mazes[0].grid;
    assert!(mazes.iter().any(|m| &m.grid != first), "six generated mazes were identical");
}

#[test]
fn reads_outside_are_walls_and_writes_are_ignored() {
    let mut map = Maze::with_size(10, 10, 100, 100);
    let before = map.grid.clone();
    assert_eq!(map.get_cell(0, 0), WALL);
    assert_eq!(map.get_cell(11, 3), WALL);
    assert_eq!(map.get_cell(-5, i32::MAX), WALL);
    map.set_cell(0, 5, PATH);
    map.set_cell(11, 11, PATH);
    map.set_cell(i32::MIN, 3, PATH);
    assert_eq!(map.grid, before);
    map.set_cell(2, 2, VISITED);
    assert_eq!(map.get_cell(2, 2), VISITED);
    assert!(!map.is_passable(2, 2));
}

#[test]
fn duplicate_copies_every_cell() {
    let map = Maze::with_size(12, 8, 120, 80);
    let copy = map.duplicate();
    assert_eq!(copy.grid, map.grid);
    assert_eq!((copy.m, copy.n, copy.sx, copy.sy), (map.m, map.n, map.sx, map.sy));
}

#[test]
fn cell_state_codes() {
    assert_eq!(CellState::Path.code(), 0);
    assert_eq!(CellState::Wall.code(), 1);
    assert_eq!(CellState::Visited.code(), 2);
    assert_eq!(CellState::Backtrack.code(), 3);
    assert_eq!(CellState::Start.code(), 4);
    assert_eq!(CellState::Solution.code(), 5);
    assert_eq!(CellState::from_code(3), Some(CellState::Backtrack));
    assert_eq!(CellState::from_code(6), None);
    assert_eq!(CellState::from_code(-1), None);
    assert_eq!((BACKTRACK, START, SOLUTION), (3, 4, 5));
}
