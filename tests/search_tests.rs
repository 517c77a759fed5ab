use maze_routing::map::{PATH, WALL};
use maze_routing::{
    astar_search, bfs_search, dbfs_search, dfs_search, run_algorithm, AStar, Algorithm, Color, Direction, Maze,
    Point, BFS, DBFS, DFS,
};

/// A maze of walls with the given cells open.
fn carved(m: i32, n: i32, open: &[(i32, i32)]) -> Maze {
    let mut grid = vec![vec![WALL; (m + 1) as usize]; (n + 1) as usize];
    for &(x, y) in open {
        grid[y as usize][x as usize] = PATH;
    }
    Maze { sx: 1, sy: 1, m, n, width: m * 10, height: n * 10, grid }
}

fn flood_distance(map: &Maze, from: (i32, i32), to: (i32, i32)) -> Option<i32> {
    let mut dist = vec![vec![-1; (map.m + 1) as usize]; (map.n + 1) as usize];
    let mut queue = std::collections::VecDeque::new();
    dist[from.1 as usize][from.0 as usize] = 0;
    queue.push_back(from);
    while let Some((x, y)) = queue.pop_front() {
        if (x, y) == to {
            return Some(dist[y as usize][x as usize]);
        }
        for (dx, dy) in [(0, 1), (1, 0), (0, -1), (-1, 0)] {
            let (nx, ny) = (x + dx, y + dy);
            if map.is_passable(nx, ny) && dist[ny as usize][nx as usize] < 0 {
                dist[ny as usize][nx as usize] = dist[y as usize][x as usize] + 1;
                queue.push_back((nx, ny));
            }
        }
    }
    None
}

/// Consecutive points are orthogonal neighbours and every point after the
/// first is open in `map`.
fn contiguous(map: &Maze, path: &[Point], from: (i32, i32), to: (i32, i32)) -> bool {
    if path.is_empty() || (path[0].x, path[0].y) != from {
        return false;
    }
    let last = &path[path.len() - 1];
    if (last.x, last.y) != to {
        return false;
    }
    path.windows(2).all(|w| {
        let d = (w[0].x - w[1].x).abs() + (w[0].y - w[1].y).abs();
        d == 1 && map.is_passable(w[1].x, w[1].y)
    })
}

#[test]
fn test_bfs_basic() {
    let mut map = Maze::with_size(10, 10, 100, 100);
    let (sx, sy) = map.start();
    let (ex, ey) = map.end();
    let result = bfs_search(&mut map, sx, sy, ex, ey);
    println!("BFS found: {}, path length: {}", result.found, result.path_length);
    assert!(result.found);
}

#[test]
fn test_dfs_basic() {
    let mut map = Maze::with_size(10, 10, 100, 100);
    let (sx, sy) = map.start();
    let (ex, ey) = map.end();
    let result = dfs_search(&mut map, sx, sy, ex, ey);
    println!("DFS found: {}, steps: {}", result.found, result.steps.len());
    assert!(result.found);
}

#[test]
fn test_dbfs_basic() {
    let mut map = Maze::with_size(10, 10, 100, 100);
    let (sx, sy) = map.start();
    let (ex, ey) = map.end();
    let result = dbfs_search(&mut map, sx, sy, ex, ey);
    println!("DBFS found: {}, path length: {}", result.found, result.path_length);
    assert!(result.found);
}

#[test]
fn test_astar_basic() {
    let mut map = Maze::with_size(10, 10, 100, 100);
    let (sx, sy) = map.start();
    let (ex, ey) = map.end();
    let result = astar_search(&mut map, sx, sy, ex, ey);
    println!("A* found: {}, path length: {}", result.found, result.path_length);
    assert!(result.found);
}

#[test]
fn bfs_length_is_the_flood_fill_distance() {
    for _ in 0..10 {
        let original = Maze::with_size(10, 10, 100, 100);
        let expected = flood_distance(&original, (1, 1), (9, 9)).unwrap();
        let mut map = original.clone();
        let r = bfs_search(&mut map, 1, 1, 9, 9);
        assert!(r.found);
        assert_eq!(r.path_length, expected);
        assert_eq!(r.path.len() as i32, expected + 1);
        assert!(contiguous(&original, &r.path, (1, 1), (9, 9)));
    }
}

#[test]
fn bfs_finds_the_shorter_of_two_routes() {
    // Two ways round a block from (1,1) to (3,3): both take four moves,
    // plus a detour that takes more.
    let open = [(1, 1), (2, 1), (3, 1), (1, 2), (3, 2), (1, 3), (2, 3), (3, 3), (4, 1), (5, 1), (5, 2), (5, 3), (4, 3)];
    let original = carved(5, 3, &open);
    let mut map = original.clone();
    let r = bfs_search(&mut map, 1, 1, 3, 3);
    assert!(r.found);
    assert_eq!(r.path_length, 4);
    assert!(contiguous(&original, &r.path, (1, 1), (3, 3)));
}

#[test]
fn astar_agrees_with_bfs() {
    for _ in 0..10 {
        let original = Maze::with_size(10, 10, 100, 100);
        let mut m1 = original.clone();
        let mut m2 = original.clone();
        let b = bfs_search(&mut m1, 1, 1, 9, 9);
        let a = astar_search(&mut m2, 1, 1, 9, 9);
        assert!(a.found && b.found);
        assert_eq!(a.path_length, b.path_length);
        assert!(contiguous(&original, &a.path, (1, 1), (9, 9)));
    }
}

#[test]
fn bidirectional_path_is_contiguous_and_shortest_on_generated_mazes() {
    for _ in 0..10 {
        let original = Maze::with_size(16, 12, 160, 120);
        let (ex, ey) = original.end();
        let mut m1 = original.clone();
        let mut m2 = original.clone();
        let b = bfs_search(&mut m1, 1, 1, ex, ey);
        let d = dbfs_search(&mut m2, 1, 1, ex, ey);
        assert!(d.found);
        assert!(contiguous(&original, &d.path, (1, 1), (ex, ey)));
        assert_eq!(d.path_length, b.path_length);
        assert_eq!(d.path.len() as i32, d.path_length + 1);
    }
}

#[test]
fn dfs_reports_a_reachable_end_no_shorter_than_bfs() {
    for _ in 0..10 {
        let original = Maze::with_size(12, 12, 120, 120);
        let (ex, ey) = original.end();
        let mut m1 = original.clone();
        let mut m2 = original.clone();
        let b = bfs_search(&mut m1, 1, 1, ex, ey);
        let d = dfs_search(&mut m2, 1, 1, ex, ey);
        assert!(d.found && b.found);
        assert!(d.path_length >= b.path_length);
        let last = &d.steps[d.steps.len() - 1];
        assert_eq!((last.x, last.y, last.color), (ex, ey, Color::yellow()));
    }
}

#[test]
fn isolated_pocket_is_not_found() {
    let open = [(1, 1), (2, 1), (3, 1), (3, 2), (3, 3), (5, 5)];
    let original = carved(6, 6, &open);
    let mut m1 = original.clone();
    let mut m2 = original.clone();
    let mut m3 = original.clone();
    let mut m4 = original.clone();
    let d = dfs_search(&mut m1, 1, 1, 5, 5);
    let b = bfs_search(&mut m2, 1, 1, 5, 5);
    let a = astar_search(&mut m3, 1, 1, 5, 5);
    let bi = dbfs_search(&mut m4, 1, 1, 5, 5);
    assert!(!d.found && !b.found && !a.found && !bi.found);
    assert_eq!((d.path_length, b.path_length, a.path_length, bi.path_length), (0, 0, 0, 0));
    assert!(bi.path.is_empty());
    let rebuilt: Vec<(i32, i32)> = b.path.iter().map(|p| (p.x, p.y)).collect();
    assert_eq!(rebuilt, vec![(1, 1)]);
    assert_eq!(a.path.len(), 1);
    assert_eq!((a.path[0].x, a.path[0].y), (1, 1));
}

#[test]
fn corridor_meets_in_the_middle() {
    let open = [(1, 1), (2, 1), (3, 1), (4, 1), (5, 1)];
    let original = carved(5, 1, &open);
    let mut map = original.clone();
    let r = dbfs_search(&mut map, 1, 1, 5, 1);
    assert!(r.found);
    assert_eq!(r.path_length, 4);
    let cells: Vec<(i32, i32)> = r.path.iter().map(|p| (p.x, p.y)).collect();
    assert_eq!(cells, vec![(1, 1), (2, 1), (3, 1), (4, 1), (5, 1)]);
    let shown = r.steps.iter().filter(|p| p.color == Color::aquamarine()).count();
    assert_eq!(shown, 5);
}

#[test]
fn vertical_corridor_meets_from_the_end_side() {
    // Start side has two open neighbours, so the end side expands too.
    let open = [(2, 1), (1, 1), (3, 1), (2, 2), (2, 3), (2, 4), (2, 5)];
    let original = carved(3, 5, &open);
    let mut map = original.clone();
    let r = dbfs_search(&mut map, 2, 1, 2, 5);
    assert!(r.found);
    assert_eq!(r.path_length, 4);
    assert!(contiguous(&original, &r.path, (2, 1), (2, 5)));
}

#[test]
fn bidirectional_end_outside_the_grid_is_not_reached() {
    let open = [(1, 1), (1, 2), (1, 3)];
    let original = carved(3, 3, &open);
    let mut map = original.clone();
    let r = dbfs_search(&mut map, 1, 1, 0, 3);
    assert!(!r.found);
    assert!(r.path.is_empty());
    assert_eq!(map.grid, original.grid);
    let mut map2 = original.clone();
    assert!(!bfs_search(&mut map2, 1, 1, 0, 3).found);
}

#[test]
fn searches_change_only_reached_cells() {
    let original = Maze::with_size(14, 10, 140, 100);
    for alg in [Algorithm::BFS, Algorithm::AStar, Algorithm::DBFS, Algorithm::DFS] {
        let mut map = original.clone();
        run_algorithm(&mut map, alg);
        for y in 0..=10usize {
            for x in 0..=14usize {
                if original.grid[y][x] == WALL {
                    assert_eq!(map.grid[y][x], WALL);
                }
            }
        }
    }
}

#[test]
fn bidirectional_trace_ends_with_the_path() {
    let mut map = Maze::with_size(10, 10, 100, 100);
    let r = dbfs_search(&mut map, 1, 1, 9, 9);
    assert!(r.found);
    let k = r.path.len();
    let tail = &r.steps[r.steps.len() - k - 1..];
    for (i, p) in r.path.iter().enumerate() {
        assert_eq!((tail[i].x, tail[i].y, tail[i].step, tail[i].color), (p.x, p.y, i as i32 + 1, Color::aquamarine()));
        assert_eq!(map.get_cell(p.x, p.y), 5);
    }
    assert_eq!((tail[k].x, tail[k].y, tail[k].step, tail[k].color), (9, 9, k as i32, Color::yellow()));
}

#[test]
fn start_equal_to_end() {
    let original = carved(5, 5, &[(3, 3)]);
    let mut m1 = original.clone();
    let mut m2 = original.clone();
    let mut m3 = original.clone();
    let mut m4 = original.clone();
    assert!(bfs_search(&mut m1, 3, 3, 3, 3).found);
    let d = dfs_search(&mut m2, 3, 3, 3, 3);
    assert!(d.found && d.path_length == 0);
    let a = astar_search(&mut m3, 3, 3, 3, 3);
    assert!(a.found && a.path_length == 0 && a.path.len() == 1);
    let bi = dbfs_search(&mut m4, 3, 3, 3, 3);
    assert!(bi.found && bi.path_length == 0 && bi.path.len() == 1);
}

#[test]
fn reconstructed_paths_have_one_more_point_than_moves() {
    let original = Maze::with_size(20, 20, 200, 200);
    let (ex, ey) = original.end();
    let mut m1 = original.clone();
    let mut m2 = original.clone();
    let b = bfs_search(&mut m1, 1, 1, ex, ey);
    let a = astar_search(&mut m2, 1, 1, ex, ey);
    assert_eq!(b.path.len() as i32, b.path_length + 1);
    assert_eq!(a.path.len() as i32, a.path_length + 1);
    let visited_b = m1.grid.iter().flatten().filter(|&&v| v != PATH && v != WALL).count();
    assert!(b.path.len() <= visited_b + 1);
}

#[test]
fn searches_leave_the_start_marked() {
    let mut map = Maze::with_size(10, 10, 100, 100);
    let r = bfs_search(&mut map, 1, 1, 9, 9);
    assert!(r.found);
    assert_eq!(r.steps[0].color, Color::yellow());
    assert_eq!(map.get_cell(9, 9), 3);
    let mut map2 = Maze::with_size(10, 10, 100, 100);
    let d = dbfs_search(&mut map2, 1, 1, 9, 9);
    assert!(d.found);
    assert_eq!(map2.get_cell(1, 1), 5);
    assert_eq!(map2.get_cell(9, 9), 5);
}

#[test]
fn engines_as_objects() {
    let original = Maze::with_size(10, 10, 100, 100);
    let mut bfs = BFS::new(original.clone(), 1, 1, 9, 9);
    let r = bfs.search();
    assert!(r.found);
    assert_eq!(bfs.map().m, 10);
    bfs.map_mut().set_cell(1, 1, 0);
    assert_eq!(bfs.map().get_cell(1, 1), 0);
    let mut dfs = DFS::new(original.clone(), 1, 1, 9, 9);
    assert!(dfs.search().found);
    assert_eq!(dfs.map_mut().n, 10);
    let mut dbfs = DBFS::new(original.clone(), 1, 1, 9, 9);
    assert!(dbfs.search().found);
    assert_eq!(dbfs.map().sx, 1);
    let mut astar = AStar::new(original.clone(), 1, 1, 9, 9);
    assert!(astar.search().found);
    assert_eq!(astar.map_mut().sy, 1);
}

#[test]
fn astar_start_carries_the_manhattan_estimate() {
    let mut map = Maze::with_size(10, 10, 100, 100);
    let r = astar_search(&mut map, 1, 1, 9, 9);
    assert_eq!(r.steps[0].h_cost, 16);
    assert_eq!(r.steps[0].f_cost(), 16);
}

#[test]
fn run_algorithm_dispatches() {
    let original = Maze::with_size(10, 10, 100, 100);
    let mut lengths = Vec::new();
    for alg in [Algorithm::BFS, Algorithm::AStar, Algorithm::DBFS, Algorithm::DFS] {
        let mut map = original.clone();
        let (steps, found, len) = run_algorithm(&mut map, alg);
        assert!(found);
        assert!(!steps.is_empty());
        lengths.push(len);
    }
    assert_eq!(lengths[0], lengths[1]);
    assert_eq!(lengths[0], lengths[2]);
    assert!(lengths[3] >= lengths[0]);
}

#[test]
fn algorithm_names() {
    assert_eq!(Algorithm::DFS.short_name(), "DFS");
    assert_eq!(Algorithm::BFS.short_name(), "BFS");
    assert_eq!(Algorithm::DBFS.short_name(), "DBFS");
    assert_eq!(Algorithm::AStar.short_name(), "A*");
    assert_eq!(Algorithm::DFS.name(), "DFS (深度优先搜索)");
    assert_eq!(Algorithm::AStar.name(), "A* (A-Star 启发式搜索)");
}

#[test]
fn directions_and_colors() {
    assert_eq!(Direction::Up.reverse(), Direction::Down);
    assert_eq!(Direction::Left.reverse(), Direction::Right);
    assert_eq!(Direction::Stay.reverse(), Direction::Stay);
    assert_eq!(Direction::Right.to_char(), '→');
    assert_eq!(Direction::Stay.to_char(), ' ');
    assert_eq!(Color::sky_blue().to_u32(), 0x87CEEB);
    assert_eq!(Color::new(1, 2, 3).to_u32(), 0x010203);
    assert_eq!(Color::black().to_u32(), 0x000A00);
    let p = Point::full(3, 4, 5, 6, Direction::Up, Color::white());
    assert_eq!(p.f_cost(), 11);
    assert!(p == Point::new(3, 4));
    assert!(p != Point::with_step(4, 3, 5));
    assert_eq!(Point::with_direction(1, 2, Direction::Left).direction, Direction::Left);
    assert_eq!(Point::with_color(1, 2, Color::yellow()).color, Color::yellow());
}

#[test]
fn astar_shows_each_cell_as_frontier_once() {
    let mut map = Maze::with_size(20, 16, 200, 160);
    let r = astar_search(&mut map, 1, 1, 19, 15);
    assert!(r.found);
    let mut seen = std::collections::HashSet::new();
    for p in r.steps.iter().filter(|p| p.color == Color::sky_blue()) {
        assert!(seen.insert((p.x, p.y)), "({}, {}) expanded twice", p.x, p.y);
    }
}

#[test]
fn dfs_backtrack_entries_follow_their_cell() {
    for _ in 0..5 {
        let mut map = Maze::with_size(16, 16, 160, 160);
        let r = dfs_search(&mut map, 1, 1, 15, 15);
        assert!(r.found);
        for i in 0..r.steps.len() {
            let p = &r.steps[i];
            if p.color == Color::light_red() {
                let q = &r.steps[i - 1];
                assert_eq!((p.x, p.y, p.step, p.direction), (q.x, q.y, q.step - 1, Direction::Stay));
            }
        }
        // the frontier entries of steps 1..=path_length that were never backtracked form the route
        let backtracked: std::collections::HashSet<(i32, i32)> =
            r.steps.iter().filter(|p| p.color == Color::light_red()).map(|p| (p.x, p.y)).collect();
        let mut on_route: Vec<&Point> = r.steps.iter()
            .filter(|p| p.color == Color::sky_blue() && !backtracked.contains(&(p.x, p.y)))
            .collect();
        on_route.dedup_by(|a, b| a.x == b.x && a.y == b.y);
        assert_eq!(on_route.len() as i32, r.path_length);
        let last = on_route[on_route.len() - 1];
        assert_eq!((last.x, last.y), (15, 15));
    }
}
