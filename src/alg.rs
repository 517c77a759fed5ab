//! The closed set of search strategies and the single entry point that runs one.
use vstd::prelude::*;
use crate::astar::astar_search;
use crate::bfs::bfs_search;
use crate::dbfs::dbfs_search;
use crate::dfs::dfs_search;
use crate::map::Maze;
use crate::point::{pos, Color, Direction, Point};
use crate::map::SOLUTION;
use crate::search::coords;
use crate::dbfs::{end_marker, solution_entries};
use crate::dfs::{backtracks_ok, shows_route};
use crate::tree::simple;

verus! {

/// A search strategy.
#[derive(Debug, Clone, Copy, PartialEq, Eq, Structural)]
pub enum Algorithm {
    DFS,
    BFS,
    DBFS,
    AStar,
}

pub open spec fn name_of(a: Algorithm) -> Seq<char> {
    match a {
        Algorithm::DFS => "DFS (深度优先搜索)"@,
        Algorithm::BFS => "BFS (广度优先搜索)"@,
        Algorithm::DBFS => "DBFS (双向广度优先搜索)"@,
        Algorithm::AStar => "A* (A-Star 启发式搜索)"@,
    }
}

pub open spec fn short_name_of(a: Algorithm) -> Seq<char> {
    match a {
        Algorithm::DFS => "DFS"@,
        Algorithm::BFS => "BFS"@,
        Algorithm::DBFS => "DBFS"@,
        Algorithm::AStar => "A*"@,
    }
}

impl Algorithm {
    /// The full display name.
    pub fn name(&self) -> (r: &'static str)
        ensures
            r@ == name_of(*self),
    {
        match self {
            Algorithm::DFS => "DFS (深度优先搜索)",
            Algorithm::BFS => "BFS (广度优先搜索)",
            Algorithm::DBFS => "DBFS (双向广度优先搜索)",
            Algorithm::AStar => "A* (A-Star 启发式搜索)",
        }
    }

    /// The short code.
    pub fn short_name(&self) -> (r: &'static str)
        ensures
            r@ == short_name_of(*self),
    {
        match self {
            Algorithm::DFS => "DFS",
            Algorithm::BFS => "BFS",
            Algorithm::DBFS => "DBFS",
            Algorithm::AStar => "A*",
        }
    }
}

/// Runs `alg` from the maze's start to its end, leaving the explored maze
/// in `map`, and returns the trace, whether the end was reached and the
/// path length.
pub fn run_algorithm(map: &mut Maze, alg: Algorithm) -> (r: (Vec<Point>, bool, i32))
    requires
        old(map).wf(),
    ensures
        final(map).wf(),
        final(map).same_shape(old(map)),
        ({
            let s = (old(map).sx as int, old(map).sy as int);
            let e = (old(map).m - 1, old(map).n - 1);
            &&& alg != Algorithm::DBFS ==> r.1 == old(map).reachable(s, e)
            &&& alg != Algorithm::DBFS ==> (r.1 ==> old(map).within(s, e, r.2 as int))
            &&& alg == Algorithm::BFS ==> (r.1 ==> forall|p: Seq<(int, int)>| #[trigger] old(map).is_route(p, s, e) ==> p.len() >= r.2 + 1)
            &&& (alg == Algorithm::BFS || alg == Algorithm::AStar) ==> (r.1 ==> exists|p: Seq<(int, int)>| #[trigger] old(map).is_route(p, s, e) && simple(p) && p.len() == r.2 + 1)
            &&& alg == Algorithm::DBFS ==> (r.1 ==> exists|p: Seq<(int, int)>| #[trigger] old(map).links(p, s, e) && simple(p) && p.len() == r.2 + 1)
            &&& alg == Algorithm::DBFS ==> r.1 == (s == e || (old(map).in_bounds_spec(s) && old(map).in_bounds_spec(e) && old(map).linked(s, e)))
            &&& !r.1 ==> r.2 == 0
            &&& r.0@.len() >= 1 && pos(r.0@[0]) == s && r.0@[0].color == Color::yellow_spec()
            &&& alg != Algorithm::DBFS ==> forall|c: (int, int)| #[trigger] final(map).cell(c) != old(map).cell(c) ==> c == s
                || (old(map).passable(c) && old(map).reachable(s, c))
            &&& alg == Algorithm::DBFS ==> forall|c: (int, int)| #[trigger] final(map).cell(c) != old(map).cell(c) ==> c == s || c == e || old(map).passable(c)
            &&& alg == Algorithm::BFS ==> forall|i: int, j: int| 0 <= i < j < r.0@.len() && #[trigger] r.0@[i].color == Color::sky_blue_spec()
                && #[trigger] r.0@[j].color == Color::sky_blue_spec() ==> pos(r.0@[i]) != pos(r.0@[j]) && r.0@[i].step <= r.0@[j].step
            &&& alg == Algorithm::BFS ==> forall|i: int| 0 <= i < r.0@.len() && #[trigger] r.0@[i].color == Color::sky_blue_spec()
                ==> old(map).passable(pos(r.0@[i])) && old(map).within(s, pos(r.0@[i]), r.0@[i].step as int)
            &&& alg == Algorithm::BFS ==> forall|i: int, p: Seq<(int, int)>| 0 <= i < r.0@.len() && #[trigger] r.0@[i].color == Color::sky_blue_spec()
                && #[trigger] old(map).is_route(p, s, pos(r.0@[i])) ==> p.len() >= r.0@[i].step + 1
            &&& (alg == Algorithm::BFS || alg == Algorithm::AStar) && r.1 ==> pos(r.0@.last()) == s && r.0@.last().color == Color::yellow_spec()
            &&& alg == Algorithm::DFS ==> backtracks_ok(r.0@)
            &&& alg == Algorithm::DFS && r.1 ==> exists|p: Seq<Point>| #[trigger] shows_route(*old(map), r.0@, s, e, p) && p.len() == r.2 + 1
            &&& alg == Algorithm::DFS && r.1 ==> pos(r.0@.last()) == e && r.0@.last().color == Color::yellow_spec()
                && r.0@.last().direction == Direction::Stay && r.0@.last().step == r.2
            &&& alg == Algorithm::AStar ==> forall|i: int, j: int| 0 <= i < j < r.0@.len() && #[trigger] r.0@[i].color == Color::sky_blue_spec()
                && #[trigger] r.0@[j].color == Color::sky_blue_spec() ==> pos(r.0@[i]) != pos(r.0@[j])
            &&& alg == Algorithm::DBFS && r.1 ==> exists|p: Seq<Point>| #[trigger] old(map).links(coords(p), s, e) && simple(coords(p))
                && p.len() == r.2 + 1 && r.0@.len() >= p.len() + 1
                && r.0@.subrange(r.0@.len() - p.len() - 1, r.0@.len() as int) == solution_entries(p).push(end_marker(old(map).m - 1, old(map).n - 1, p.len() as int))
                && (forall|k: int| 0 <= k < p.len() && old(map).in_bounds_spec(pos(p[k])) ==> #[trigger] final(map).cell(pos(p[k])) == SOLUTION)
        }),
{
    let (sx, sy) = map.start();
    let (ex, ey) = map.end();
    match alg {
        Algorithm::DFS => {
            let r = dfs_search(map, sx, sy, ex, ey);
            (r.steps, r.found, r.path_length)
        },
        Algorithm::BFS => {
            let r = bfs_search(map, sx, sy, ex, ey);
            proof {
                if r.found {
                    assert(old(map).is_route(crate::search::coords(r.path@), (sx as int, sy as int), (ex as int, ey as int)));
                }
            }
            (r.steps, r.found, r.path_length)
        },
        Algorithm::DBFS => {
            let r = dbfs_search(map, sx, sy, ex, ey);
            proof {
                if r.found {
                    assert(end_marker(ex as int, ey as int, r.path@.len() as int) == (Point { x: ex, y: ey, step: r.path@.len() as i32, h_cost: 0, direction: Direction::Stay, color: Color::yellow_spec() }));
                    assert(old(map).links(crate::search::coords(r.path@), (sx as int, sy as int), (ex as int, ey as int)));
                }
            }
            (r.steps, r.found, r.path_length)
        },
        Algorithm::AStar => {
            let r = astar_search(map, sx, sy, ex, ey);
            proof {
                if r.found {
                    assert(old(map).is_route(crate::search::coords(r.path@), (sx as int, sy as int), (ex as int, ey as int)));
                }
            }
            (r.steps, r.found, r.path_length)
        },
    }
}

} // verus!
