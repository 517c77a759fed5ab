use maze_routing::map::{BACKTRACK, PATH, SOLUTION, START, VISITED, WALL};
use maze_routing::replay::{apply_step, extract_path_directions, replay};
use maze_routing::{bfs_search, dbfs_search, run_algorithm, Algorithm, Color, Direction, Maze, Point};

fn carved(m: i32, n: i32, open: &[(i32, i32)]) -> Maze {
    let mut grid = vec![vec![WALL; (m + 1) as usize]; (n + 1) as usize];
    for &(x, y) in open {
        grid[y as usize][x as usize] = PATH;
    }
    Maze { sx: 1, sy: 1, m, n, width: m * 10, height: n * 10, grid }
}

#[test]
fn apply_step_marks_by_colour() {
    let mut map = carved(4, 4, &[(1, 1), (2, 1), (3, 1), (1, 2)]);
    apply_step(&mut map, &Point::with_color(1, 1, Color::yellow()));
    apply_step(&mut map, &Point::with_color(2, 1, Color::sky_blue()));
    apply_step(&mut map, &Point::with_color(3, 1, Color::light_red()));
    apply_step(&mut map, &Point::with_color(1, 2, Color::aquamarine()));
    apply_step(&mut map, &Point::with_color(4, 4, Color::white()));
    apply_step(&mut map, &Point::with_color(0, 0, Color::yellow()));
    assert_eq!(map.get_cell(1, 1), START);
    assert_eq!(map.get_cell(2, 1), VISITED);
    assert_eq!(map.get_cell(3, 1), BACKTRACK);
    assert_eq!(map.get_cell(1, 2), SOLUTION);
    assert_eq!(map.get_cell(4, 4), WALL);
}

#[test]
fn replaying_the_whole_trace_rebuilds_the_searched_maze() {
    let original = Maze::with_size(12, 12, 120, 120);
    let mut searched = original.clone();
    let r = dbfs_search(&mut searched, 1, 1, 11, 11);
    assert!(r.found);
    let rebuilt = replay(&original, &r.steps, r.steps.len());
    let last = r.path.len() - 1;
    for p in &r.path[..last] {
        assert_eq!(searched.get_cell(p.x, p.y), SOLUTION);
        assert_eq!(rebuilt.get_cell(p.x, p.y), SOLUTION);
    }
    assert_eq!(rebuilt.get_cell(11, 11), START);
    let none = replay(&original, &r.steps, 0);
    assert_eq!(none.grid, original.grid);
}

#[test]
fn replaying_a_prefix_is_stepping_forward() {
    let original = Maze::with_size(10, 10, 100, 100);
    let mut temp = original.clone();
    let (steps, _, _) = run_algorithm(&mut temp, Algorithm::BFS);
    let mut map = original.clone();
    for k in 0..steps.len() {
        assert_eq!(replay(&original, &steps, k).grid, map.grid);
        apply_step(&mut map, &steps[k]);
    }
}

#[test]
fn path_directions_of_a_backtracked_trace() {
    let steps = vec![
        Point::with_color(1, 1, Color::yellow()),
        Point::with_color(3, 1, Color::sky_blue()),
        Point::with_color(3, 1, Color::light_red()),
        Point::with_color(2, 1, Color::light_red()),
        Point::with_color(2, 1, Color::light_red()),
        Point::with_color(1, 1, Color::light_red()),
        Point::with_color(1, 1, Color::yellow()),
    ];
    let d = extract_path_directions(&steps);
    assert_eq!(d, vec![(1, 1, Direction::Right), (2, 1, Direction::Right), (3, 1, Direction::Stay)]);
}

#[test]
fn path_directions_of_a_solution_trace() {
    let steps = vec![
        Point::with_color(1, 1, Color::aquamarine()),
        Point::with_color(1, 2, Color::aquamarine()),
        Point::with_color(1, 3, Color::aquamarine()),
        Point::with_color(2, 3, Color::aquamarine()),
        Point::with_color(2, 2, Color::aquamarine()),
        Point::with_color(5, 5, Color::white()),
    ];
    let d = extract_path_directions(&steps);
    assert_eq!(
        d,
        vec![(1, 1, Direction::Down), (1, 2, Direction::Down), (1, 3, Direction::Right), (2, 3, Direction::Up), (2, 2, Direction::Stay)]
    );
    assert!(extract_path_directions(&vec![Point::new(1, 1)]).is_empty());
}

#[test]
fn path_directions_follow_a_bfs_path() {
    let mut map = Maze::with_size(10, 10, 100, 100);
    let r = bfs_search(&mut map, 1, 1, 9, 9);
    let d = extract_path_directions(&r.steps);
    // the backtrack entries are the predecessors of the end cell
    assert_eq!(d.len(), r.path.len() - 1);
    assert_eq!((d[0].0, d[0].1), (1, 1));
    assert_eq!(d[d.len() - 1].2, Direction::Stay);
    for (p, q) in d.iter().zip(r.path.iter()) {
        assert_eq!((p.0, p.1), (q.x, q.y));
    }
    for w in d.windows(2) {
        assert_ne!(w[0].2, Direction::Stay);
    }
}

#[test]
fn render_paints_blocks() {
    let mut map = carved(2, 1, &[(1, 1)]);
    map.set_cell(2, 1, VISITED);
    let mut buffer = vec![7u32; 3 * 2 * 2 + 5];
    map.render(&mut buffer, 6, 2);
    // cells are 2 × 1 pixels: row 0 is walls, row 1 is wall, path, visited
    assert_eq!(&buffer[0..6], &[0x000A00; 6]);
    assert_eq!(&buffer[6..12], &[0x000A00, 0x000A00, 0xFFFFFF, 0xFFFFFF, 0x87CEEB, 0x87CEEB]);
    assert_eq!(&buffer[12..], &[7u32; 5]);
}

#[test]
fn render_leaves_the_margin() {
    let map = carved(1, 1, &[(1, 1)]);
    let mut buffer = vec![9u32; 25];
    map.render(&mut buffer, 5, 5);
    // 2 × 2 cells of 2 × 2 pixels; the fifth row and column stay
    assert_eq!(buffer[0], 0x000A00);
    assert_eq!(buffer[3 * 5 + 3], 0xFFFFFF);
    assert_eq!(buffer[4], 9);
    assert_eq!(buffer[4 * 5], 9);
}

#[test]
fn render_needs_only_the_painted_area() {
    let map = carved(1, 1, &[(1, 1)]);
    // 2 × 2 cells of 2 × 2 pixels in a 5-wide buffer: the last painted
    // pixel is at index 3 * 5 + 3
    let mut buffer = vec![9u32; 19];
    map.render(&mut buffer, 5, 5);
    assert_eq!(buffer[3 * 5 + 3], 0xFFFFFF);
    assert_eq!(buffer[4], 9);
}
