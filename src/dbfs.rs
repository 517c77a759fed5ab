//! Bidirectional breadth-first search.
use vstd::prelude::*;
use vstd::set_lib::*;
use crate::map::{adjacent, moved, scan_dir, scan_direction, Maze, BACKTRACK, PATH, SOLUTION, START, VISITED};
use crate::point::{pos, Color, Direction, Point};
use crate::tree::simple;
use crate::search::{
    cell_index, chain_ok, coords, depth_of, empty_table, entries, key, lemma_adjacent_dir, lemma_idx, link_ok,
    lookup, parent, trace_forward, trace_path,
};

verus! {

/// Outcome of a bidirectional search.
#[derive(Debug)]
pub struct DbfsResult {
    pub found: bool,
    /// The trace, in replay order.
    pub steps: Vec<Point>,
    /// Number of moves on the path found; 0 when none was found.
    pub path_length: i32,
    /// The path from start to end; empty when none was found.
    pub path: Vec<Point>,
}

/// A bidirectional breadth-first search over its own copy of a maze.
pub struct DBFS {
    pub map: Maze,
    pub sx: i32,
    pub sy: i32,
    pub ex: i32,
    pub ey: i32,
}

/// The trace entries that show a final path: each of its cells in
/// aquamarine, numbered from 1.
pub open spec fn solution_entries(path: Seq<Point>) -> Seq<Point> {
    Seq::new(path.len(), |i: int| Point {
        x: path[i].x,
        y: path[i].y,
        step: (i + 1) as i32,
        h_cost: 0,
        direction: path[i].direction,
        color: Color::aquamarine_spec(),
    })
}

/// The trace entry that marks the end `(x, y)` after a path of `k` cells.
pub open spec fn end_marker(x: int, y: int, k: int) -> Point {
    Point { x: x as i32, y: y as i32, step: k as i32, h_cost: 0, direction: Direction::Stay, color: Color::yellow_spec() }
}

/// One of the two searches: its FIFO queue (`queue[head..]` is waiting) and
/// its predecessor table.
struct Frontier {
    queue: Vec<Point>,
    head: usize,
    pre: Vec<Option<Point>>,
    depth: Ghost<Seq<int>>,
    at: Ghost<Seq<int>>,
}

impl Frontier {
    /// The queue grows from `root`; every other queued cell has a table
    /// entry, is marked `mark` in `map`, and sits at its depth.
    spec fn inv(&self, g0: Maze, root: (int, int), map: Maze, mark: i32) -> bool {
        &&& chain_ok(g0, self.pre@, root, self.depth@)
        &&& self.at@.len() == g0.size()
        &&& self.queue@.len() >= 1
        &&& pos(self.queue@[0]) == root
        &&& self.queue@[0].step == 0
        &&& self.head <= self.queue@.len()
        &&& self.queue@.len() == 1 + entries(self.pre@).len()
        &&& forall|i: int| 0 <= i < self.pre@.len() && #[trigger] self.pre@[i] is Some ==> g0.m + 2 <= i
        &&& forall|k: int| 0 < k < self.queue@.len() ==> key(g0, self.pre@, pos(#[trigger] self.queue@[k]))
            && self.depth@[g0.idx(pos(self.queue@[k]))] == self.queue@[k].step
        &&& forall|k: int| 0 <= k < self.queue@.len() ==> 0 <= #[trigger] self.queue@[k].step <= k
        &&& forall|c: (int, int)| #[trigger] key(g0, self.pre@, c) ==> 0 < self.at@[g0.idx(c)] < self.queue@.len()
            && pos(self.queue@[self.at@[g0.idx(c)]]) == c
        &&& forall|c: (int, int)| #[trigger] key(g0, self.pre@, c) ==> map.cell(c) == mark
    }

    /// Cells this side has reached.
    spec fn reached(&self, g0: Maze, root: (int, int), c: (int, int)) -> bool {
        c == root || key(g0, self.pre@, c)
    }

    /// Every expanded cell has no inside neighbour at `other` and all its
    /// passable neighbours reached.
    spec fn closed(&self, g0: Maze, root: (int, int), other: (int, int)) -> bool {
        &&& forall|j: int, k: int| 0 <= j < self.head && 0 <= k < 4 && #[trigger] g0.in_bounds_spec(moved(pos(self.queue@[j]), scan_dir(k)))
            ==> moved(pos(self.queue@[j]), scan_dir(k)) != other
        &&& forall|j: int, k: int| 0 <= j < self.head && 0 <= k < 4 && #[trigger] g0.passable(moved(pos(self.queue@[j]), scan_dir(k)))
            ==> self.reached(g0, root, moved(pos(self.queue@[j]), scan_dir(k)))
    }

    proof fn lemma_depth_bound(&self, g0: Maze, root: (int, int), map: Maze, mark: i32, c: (int, int))
        requires
            self.inv(g0, root, map, mark),
            self.reached(g0, root, c),
        ensures
            0 <= depth_of(g0, self.depth@, root, c) <= entries(self.pre@).len(),
    {
        if c != root {
            assert(key(g0, self.pre@, c));
            let j = self.at@[g0.idx(c)];
            assert(key(g0, self.pre@, pos(self.queue@[j])));
            assert(0 <= self.queue@[j].step <= j);
        }
    }

    fn new(g: &Maze, Ghost(g0): Ghost<Maze>, root: &Point, Ghost(mark): Ghost<i32>) -> (f: Frontier)
        requires
            g.wf(),
            g0.wf(),
            g0.m == g.m,
            g0.n == g.n,
            root.step == 0,
        ensures
            f.inv(g0, pos(*root), *g, mark),
            f.head == 0,
            forall|i: int| 0 <= i < f.pre@.len() ==> f.pre@[i] is None,
            f.pre@.len() == g.size(),
    {
        let pre = empty_table(g);
        let mut queue: Vec<Point> = Vec::new();
        queue.push(root.copy());
        let f = Frontier {
            queue,
            head: 0,
            pre,
            depth: Ghost(Seq::new(g.size() as nat, |i: int| 0)),
            at: Ghost(Seq::new(g.size() as nat, |i: int| 0)),
        };
        proof {
            assert(entries(f.pre@) =~= Set::<int>::empty());
            assert(g.size() == g0.size());
            assert forall|c: (int, int)| !#[trigger] key(g0, f.pre@, c) by {
                if g0.in_bounds_spec(c) {
                    lemma_idx(g0, c, c);
                }
            }
            assert(chain_ok(g0, f.pre@, pos(*root), f.depth@));
        }
        f
    }

    /// What holds while the neighbours of `current` (entry `ci`) are scanned.
    spec fn scanning(&self, map: Maze, g0: Maze, other: Frontier, s0: Frontier, m0: Maze, root: (int, int), oroot: (int, int), mark: i32, ci: int, current: Point, total: int, omark: i32) -> bool {
        &&& map.wf()
        &&& map.same_shape(&g0)
        &&& g0.wf()
        &&& total == g0.size()
        &&& omark == if mark == VISITED { BACKTRACK } else { VISITED }
        &&& mark == VISITED || mark == BACKTRACK
        &&& 0 <= ci < self.queue@.len()
        &&& self.head == ci + 1
        &&& current == self.queue@[ci]
        &&& pos(current) == root || key(g0, self.pre@, pos(current))
        &&& chain_ok(g0, self.pre@, root, self.depth@)
        &&& self.at@.len() == total
        &&& self.queue@.len() >= 1
        &&& pos(self.queue@[0]) == root
        &&& self.queue@[0].step == 0
        &&& self.queue@.len() == 1 + entries(self.pre@).len()
        &&& self.pre@.len() == other.pre@.len()
        &&& forall|i: int| 0 <= i < self.pre@.len() && #[trigger] self.pre@[i] is Some ==> g0.m + 2 <= i
        &&& forall|i: int| 0 < i < self.queue@.len() ==> key(g0, self.pre@, pos(#[trigger] self.queue@[i])) && self.depth@[g0.idx(pos(self.queue@[i]))] == self.queue@[i].step
        &&& forall|i: int| 0 <= i < self.queue@.len() ==> 0 <= #[trigger] self.queue@[i].step <= i
        &&& forall|c: (int, int)| #[trigger] key(g0, self.pre@, c) ==> 0 < self.at@[g0.idx(c)] < self.queue@.len() && pos(self.queue@[self.at@[g0.idx(c)]]) == c
        &&& forall|c: (int, int)| #[trigger] key(g0, self.pre@, c) ==> map.cell(c) == mark
        &&& other.inv(g0, oroot, map, omark)
        &&& forall|c: (int, int)| #[trigger] key(g0, self.pre@, c) ==> key(g0, s0.pre@, c) || (g0.in_bounds_spec(c) && m0.cell(c) == PATH)
        &&& forall|c: (int, int)| #[trigger] key(g0, s0.pre@, c) ==> key(g0, self.pre@, c)
        &&& forall|i: int| 0 <= i < self.pre@.len() && #[trigger] self.pre@[i] is Some ==> s0.pre@[i] is Some || other.pre@[i] is None
        &&& forall|c: (int, int)| #[trigger] map.cell(c) == m0.cell(c) || (m0.cell(c) == PATH && key(g0, self.pre@, c))
        &&& forall|c: (int, int)| g0.in_bounds_spec(c) && #[trigger] map.cell(c) == PATH ==> g0.cell(c) == PATH && !key(g0, self.pre@, c) && !key(g0, other.pre@, c) && c != root && c != oroot
        &&& forall|c: (int, int)| #[trigger] g0.passable(c) && map.cell(c) != PATH ==> key(g0, self.pre@, c) || key(g0, other.pre@, c) || c == root || c == oroot
        &&& forall|j: int, d: int| 0 <= j < ci && 0 <= d < 4 && #[trigger] g0.in_bounds_spec(moved(pos(self.queue@[j]), scan_dir(d))) ==> moved(pos(self.queue@[j]), scan_dir(d)) != oroot
        &&& forall|j: int, d: int| 0 <= j < ci && 0 <= d < 4 && #[trigger] g0.passable(moved(pos(self.queue@[j]), scan_dir(d))) ==> self.reached(g0, root, moved(pos(self.queue@[j]), scan_dir(d)))
    }

    /// Marks the open cell `(nx, ny)`, one step from `current` in direction
    /// `dir`, as reached from `current` and queues it.
    #[verifier::rlimit(100)]
    #[verifier::spinoff_prover]
    fn enqueue(
        &mut self,
        map: &mut Maze,
        Ghost(g0): Ghost<Maze>,
        other: &Frontier,
        Ghost(s0): Ghost<Frontier>,
        Ghost(m0): Ghost<Maze>,
        Ghost(root): Ghost<(int, int)>,
        Ghost(oroot): Ghost<(int, int)>,
        mark: i32,
        color: Color,
        current: &Point,
        Ghost(ci): Ghost<int>,
        Ghost(total): Ghost<int>,
        Ghost(omark): Ghost<i32>,
        dir: Direction,
        Ghost(k): Ghost<int>,
        nx: i32,
        ny: i32,
    )
        requires
            old(self).scanning(*old(map), g0, *other, s0, m0, root, oroot, mark, ci, *current, total, omark),
            0 <= k < 4,
            dir == scan_dir(k),
            (nx as int, ny as int) == moved(pos(*current), dir),
            g0.in_bounds_spec((nx as int, ny as int)),
            old(map).cell((nx as int, ny as int)) == PATH,
        ensures
            final(self).scanning(*final(map), g0, *other, s0, m0, root, oroot, mark, ci, *current, total, omark),
            key(g0, final(self).pre@, (nx as int, ny as int)),
            forall|x: (int, int)| #[trigger] key(g0, old(self).pre@, x) ==> key(g0, final(self).pre@, x),
    {
        let ghost c = (nx as int, ny as int);
        let ghost cp = pos(*current);
        proof {
            g0.lemma_dims();
            assert(adjacent(cp, c));
            if ci > 0 {
                assert(key(g0, self.pre@, pos(self.queue@[ci])));
            }
        }
        let i = cell_index(map, nx, ny);
        proof {
            lemma_idx(g0, c, c);
            assert(!key(g0, self.pre@, c));
            assert(!key(g0, other.pre@, c));
            assert(g0.passable(c));
            assert(!entries(self.pre@).contains(i as int));
            lemma_int_range(0, total);
            lemma_len_subset(entries(self.pre@), set_int_range(0, total).remove(i as int));
            assert(0 <= self.queue@[ci].step <= ci);
            assert(current.step + 1 <= self.queue@.len());
            if cp == root {
                assert(ci == 0) by {
                    if ci > 0 {
                        assert(key(g0, self.pre@, pos(self.queue@[ci as int])));
                        assert(link_ok(g0, self.pre@, root, self.depth@, cp));
                    }
                }
            }
        }
        let ghost old_pre = self.pre@;
        let ghost old_q = self.queue@;
        let ghost old_depth = self.depth@;
        let ghost old_map = *map;
        map.set_cell(nx, ny, mark);
        self.queue.push(Point::full(nx, ny, current.step + 1, 0, dir, color));
        self.pre.set(i, Some(Point::with_direction(current.x, current.y, dir)));
        proof {
            self.depth@ = old_depth.update(i as int, current.step + 1);
            self.at@ = self.at@.update(i as int, old_q.len() as int);
            assert(entries(self.pre@) =~= entries(old_pre).insert(i as int));
            assert forall|x: (int, int)| key(g0, old_pre, x) || x == c <==> #[trigger] key(g0, self.pre@, x) by {
                if g0.in_bounds_spec(x) {
                    lemma_idx(g0, x, c);
                }
            }
            assert forall|x: (int, int)| #[trigger] key(g0, self.pre@, x) implies link_ok(g0, self.pre@, root, self.depth@, x) by {
                lemma_idx(g0, x, c);
                if x != c {
                    assert(key(g0, old_pre, x));
                    assert(link_ok(g0, old_pre, root, old_depth, x));
                    let p = parent(g0, old_pre, x);
                    if key(g0, old_pre, p) {
                        lemma_idx(g0, p, c);
                    }
                } else {
                    assert(parent(g0, self.pre@, c) == cp);
                    if cp == root {
                        assert(current.step == 0);
                    } else {
                        assert(ci > 0);
                        assert(key(g0, old_pre, cp));
                        lemma_idx(g0, cp, c);
                        assert(old_depth[g0.idx(cp)] == current.step);
                    }
                }
            }
            assert forall|x: (int, int)| #[trigger] key(g0, self.pre@, x) implies 0 < self.at@[g0.idx(x)] < self.queue@.len() && pos(self.queue@[self.at@[g0.idx(x)]]) == x by {
                lemma_idx(g0, x, c);
                if x != c {
                    assert(key(g0, old_pre, x));
                }
            }
            assert forall|ii: int| 0 < ii < self.queue@.len() implies key(g0, self.pre@, pos(#[trigger] self.queue@[ii])) && self.depth@[g0.idx(pos(self.queue@[ii]))] == self.queue@[ii].step by {
                if ii < old_q.len() {
                    assert(key(g0, old_pre, pos(old_q[ii])));
                    lemma_idx(g0, pos(old_q[ii]), c);
                }
            }
            assert forall|x: (int, int)| #[trigger] key(g0, self.pre@, x) implies map.cell(x) == mark by {
                lemma_idx(g0, x, c);
            }
            assert forall|x: (int, int)| #[trigger] key(g0, other.pre@, x) implies map.cell(x) == omark by {
                assert(old_map.cell(x) == omark);
            }
            assert forall|x: (int, int)| #[trigger] key(g0, self.pre@, x) implies key(g0, s0.pre@, x) || (g0.in_bounds_spec(x) && m0.cell(x) == PATH) by {
                if x == c {
                    assert(old_map.cell(c) == PATH);
                } else {
                    assert(key(g0, old_pre, x));
                }
            }
            assert forall|x: (int, int)| #[trigger] key(g0, s0.pre@, x) implies key(g0, self.pre@, x) by {
                assert(key(g0, old_pre, x));
            }
            assert forall|x: (int, int)| #[trigger] map.cell(x) == m0.cell(x) || (m0.cell(x) == PATH && key(g0, self.pre@, x)) by {
                assert(old_map.cell(x) == m0.cell(x) || (m0.cell(x) == PATH && key(g0, old_pre, x)));
                if x == c {
                    assert(old_map.cell(c) == PATH);
                }
            }
            assert forall|x: (int, int)| g0.in_bounds_spec(x) && #[trigger] map.cell(x) == PATH implies g0.cell(x) == PATH
                && !key(g0, self.pre@, x) && !key(g0, other.pre@, x) && x != root && x != oroot by {
                assert(old_map.cell(x) == PATH);
            }
            assert forall|x: (int, int)| #[trigger] g0.passable(x) && map.cell(x) != PATH implies key(g0, self.pre@, x)
                || key(g0, other.pre@, x) || x == root || x == oroot by {
                if x != c {
                    assert(old_map.cell(x) == map.cell(x));
                }
            }
            assert forall|j: int, d: int| 0 <= j < ci && 0 <= d < 4 && #[trigger] g0.passable(moved(pos(self.queue@[j]), scan_dir(d)))
                implies self.reached(g0, root, moved(pos(self.queue@[j]), scan_dir(d))) by {
                assert(self.queue@[j] == old_q[j]);
                assert(old_pre.len() == self.pre@.len());
            }
            assert forall|j: int, d: int| 0 <= j < ci && 0 <= d < 4 && #[trigger] g0.in_bounds_spec(moved(pos(self.queue@[j]), scan_dir(d)))
                implies moved(pos(self.queue@[j]), scan_dir(d)) != oroot by {
                assert(self.queue@[j] == old_q[j]);
            }
        }
    }

    /// Takes the next cell from the queue and looks at its neighbours in scan order: an open cell is marked `mark` and
    /// queued; a cell that the other side has reached (or its root) is a
    /// meeting, returned as (this side's cell, the other side's cell).
    #[verifier::rlimit(100)]
    #[verifier::spinoff_prover]
    fn expand(
        &mut self,
        map: &mut Maze,
        Ghost(g0): Ghost<Maze>,
        other: &Frontier,
        Ghost(root): Ghost<(int, int)>,
        other_root: (i32, i32),
        mark: i32,
        color: Color,
    ) -> (r: Option<(Point, Point)>)
        requires
            old(map).wf(),
            g0.wf(),
            old(map).same_shape(&g0),
            old(self).inv(g0, root, *old(map), mark),
            other.inv(g0, (other_root.0 as int, other_root.1 as int), *old(map), if mark == VISITED { BACKTRACK } else { VISITED }),
            old(self).closed(g0, root, (other_root.0 as int, other_root.1 as int)),
            old(self).head < old(self).queue@.len(),
            mark == VISITED || mark == BACKTRACK,
            old(self).pre@.len() == other.pre@.len(),
            forall|c: (int, int)| g0.in_bounds_spec(c) && #[trigger] old(map).cell(c) == PATH ==> g0.cell(c) == PATH
                && !key(g0, old(self).pre@, c) && !key(g0, other.pre@, c) && c != root && c != (other_root.0 as int, other_root.1 as int),
            forall|c: (int, int)| #[trigger] g0.passable(c) && old(map).cell(c) != PATH ==> key(g0, old(self).pre@, c)
                || key(g0, other.pre@, c) || c == root || c == (other_root.0 as int, other_root.1 as int),
        ensures
            final(map).wf(),
            final(map).same_shape(old(map)),
            final(self).inv(g0, root, *final(map), mark),
            other.inv(g0, (other_root.0 as int, other_root.1 as int), *final(map), if mark == VISITED { BACKTRACK } else { VISITED }),
            final(self).head == old(self).head + 1,
            final(self).pre@.len() == old(self).pre@.len(),
            forall|c: (int, int)| #[trigger] key(g0, final(self).pre@, c) ==> key(g0, old(self).pre@, c) || (g0.in_bounds_spec(c) && old(map).cell(c) == PATH),
            forall|c: (int, int)| #[trigger] key(g0, old(self).pre@, c) ==> key(g0, final(self).pre@, c),
            forall|i: int| 0 <= i < final(self).pre@.len() && #[trigger] final(self).pre@[i] is Some ==> old(self).pre@[i] is Some || other.pre@[i] is None,
            forall|c: (int, int)| #[trigger] final(map).cell(c) == old(map).cell(c) || (old(map).cell(c) == PATH && key(g0, final(self).pre@, c)),
            r is None ==> final(self).closed(g0, root, (other_root.0 as int, other_root.1 as int)),
            r matches Some(ab) ==> final(self).reached(g0, root, pos(ab.0))
                && other.reached(g0, (other_root.0 as int, other_root.1 as int), pos(ab.1))
                && adjacent(pos(ab.0), pos(ab.1)),
    {
        let ghost oroot = (other_root.0 as int, other_root.1 as int);
        let ghost total = g0.size();
        let ghost m0 = *map;
        let ghost s0 = *self;
        let ghost omark = if mark == VISITED { BACKTRACK } else { VISITED };
        proof {
            g0.lemma_dims();
        }
        let qlen = self.queue.len();
        let current = self.queue[self.head].copy();
        let ci = self.head;
        self.head = self.head + 1;
        let ghost cp = pos(current);
        proof {
            if ci > 0 {
                assert(key(g0, self.pre@, pos(self.queue@[ci as int])));
            }
        }
        let mut meeting: Option<(Point, Point)> = None;
        let mut k: usize = 0;
        while k < 4 && meeting.is_none()
            invariant
                self.scanning(*map, g0, *other, s0, m0, root, oroot, mark, ci as int, current, total, omark),
                oroot == (other_root.0 as int, other_root.1 as int),
                cp == pos(current),
                k <= 4,
                meeting is None ==> forall|d: int| 0 <= d < k && #[trigger] g0.in_bounds_spec(moved(cp, scan_dir(d))) ==> moved(cp, scan_dir(d)) != oroot,
                meeting is None ==> forall|d: int| 0 <= d < k && #[trigger] g0.passable(moved(cp, scan_dir(d))) ==> self.reached(g0, root, moved(cp, scan_dir(d))),
                meeting matches Some(ab) ==> self.reached(g0, root, pos(ab.0)) && other.reached(g0, oroot, pos(ab.1)) && adjacent(pos(ab.0), pos(ab.1)),
            decreases 4 - k,
        {
            let dir = scan_direction(k);
            match map.neighbor(current.x, current.y, dir) {
                Some((nx, ny)) => {
                    let ghost c = (nx as int, ny as int);
                    proof {
                        assert(adjacent(cp, c)) by {
                            assert(dir == scan_dir(k as int));
                        }
                    }
                    let cell = map.get_cell(nx, ny);
                    if cell == PATH {
                        self.enqueue(map, Ghost(g0), other, Ghost(s0), Ghost(m0), Ghost(root), Ghost(oroot), mark, color, &current, Ghost(ci as int), Ghost(total), Ghost(omark), dir, Ghost(k as int), nx, ny);
                    } else if (nx == other_root.0 && ny == other_root.1) || lookup(map, &other.pre, nx, ny).is_some() {
                        let here = Point::with_direction(current.x, current.y, dir);
                        let there = Point::with_direction(nx, ny, dir.reverse());
                        meeting = Some((here, there));
                    }
                },
                None => {},
            }
            k = k + 1;
        }
        meeting
    }
}

impl DBFS {
    pub fn new(map: Maze, sx: i32, sy: i32, ex: i32, ey: i32) -> (r: DBFS)
        ensures
            r == (DBFS { map, sx, sy, ex, ey }),
    {
        DBFS { map, sx, sy, ex, ey }
    }

    /// Runs one breadth-first search from the start and one from the end,
    /// each round expanding the side with the shorter queue (the start side
    /// on ties), and stops at the first cell where the two sides touch.
    /// When start and end coincide the path is that single cell; otherwise
    /// an end point outside the grid (which reads as a wall) is never
    /// reached, and nothing is explored.
    pub fn search(&mut self) -> (r: DbfsResult)
        requires
            old(self).map.wf(),
        ensures
            final(self).map.wf(),
            final(self).map.same_shape(&old(self).map),
            final(self).sx == old(self).sx && final(self).sy == old(self).sy,
            final(self).ex == old(self).ex && final(self).ey == old(self).ey,
            r.steps@.len() >= 1,
            pos(r.steps@[0]) == (old(self).sx as int, old(self).sy as int),
            r.steps@[0].color == Color::yellow_spec(),
            r.found ==> old(self).map.links(coords(r.path@), (old(self).sx as int, old(self).sy as int), (old(self).ex as int, old(self).ey as int)),
            r.found ==> r.path@.len() == r.path_length + 1,
            r.found ==> simple(coords(r.path@)),
            r.found == ((old(self).sx == old(self).ex && old(self).sy == old(self).ey)
                || (old(self).map.in_bounds_spec((old(self).sx as int, old(self).sy as int)) && old(self).map.in_bounds_spec((old(self).ex as int, old(self).ey as int))
                && old(self).map.linked((old(self).sx as int, old(self).sy as int), (old(self).ex as int, old(self).ey as int)))),
            !r.found ==> r.path_length == 0 && r.path@.len() == 0,
            forall|c: (int, int)| #[trigger] final(self).map.cell(c) != old(self).map.cell(c) ==> c == (old(self).sx as int, old(self).sy as int) || c == (old(self).ex as int, old(self).ey as int) || old(self).map.passable(c),
            r.found ==> r.steps@.len() >= r.path@.len() + 1 && r.steps@.subrange(r.steps@.len() - r.path@.len() - 1, r.steps@.len() as int) == solution_entries(r.path@).push(
                Point { x: old(self).ex, y: old(self).ey, step: r.path@.len() as i32, h_cost: 0, direction: Direction::Stay, color: Color::yellow_spec() },
            ),
            r.found ==> forall|k: int| 0 <= k < r.path@.len() && old(self).map.in_bounds_spec(pos(r.path@[k])) ==> #[trigger] final(self).map.cell(pos(r.path@[k])) == SOLUTION,
    {
        let ghost g0 = self.map;
        let ghost s = (self.sx as int, self.sy as int);
        let ghost e = (self.ex as int, self.ey as int);
        let ghost total = g0.size();
        proof {
            g0.lemma_dims();
        }
        let mut steps: Vec<Point> = Vec::new();
        let start = Point::with_color(self.sx, self.sy, Color::yellow());
        let end = Point::with_color(self.ex, self.ey, Color::yellow());
        if start == end {
            self.map.set_cell(self.sx, self.sy, START);
            assert forall|c: (int, int)| #[trigger] self.map.cell(c) == g0.cell(c) || c == s || c == e || g0.passable(c) by {}
            steps.push(start.copy());
            let mut path: Vec<Point> = Vec::new();
            path.push(start.copy());
            let ghost before_show = self.map;
            let ghost steps_before = steps@;
            self.show_path(&path, &end, &mut steps);
            proof {
                let tail = solution_entries(path@).push(Point { x: end.x, y: end.y, step: path@.len() as i32, h_cost: 0, direction: Direction::Stay, color: Color::yellow_spec() });
                assert(steps@.subrange(steps@.len() - path@.len() - 1, steps@.len() as int) =~= tail);
                assert forall|c: (int, int)| #[trigger] self.map.cell(c) == g0.cell(c) || c == s || c == e || g0.passable(c) by {
                    if self.map.cell(c) != before_show.cell(c) {
                        let j = choose|j: int| 0 <= j < coords(path@).len() && coords(path@)[j] == c;
                        if 0 < j < path@.len() - 1 {
                            assert(g0.passable(coords(path@)[j]));
                        }
                    }
                }
            }
            proof {
                assert(g0.links(coords(path@), s, e));
            }
            return DbfsResult { found: true, steps, path_length: 0, path };
        }
        if !self.map.in_bounds(self.sx, self.sy) || !self.map.in_bounds(self.ex, self.ey) {
            steps.push(start.copy());
            return DbfsResult { found: false, steps, path_length: 0, path: Vec::new() };
        }
        self.map.set_cell(self.sx, self.sy, START);
        self.map.set_cell(self.ex, self.ey, START);
        steps.push(start.copy());
        let mut sf = Frontier::new(&self.map, Ghost(g0), &start, Ghost(VISITED));
        let mut ef = Frontier::new(&self.map, Ghost(g0), &end, Ghost(BACKTRACK));
        let mut found = false;
        let mut meeting: Option<(Point, Point)> = None;
        while !found && sf.head < sf.queue.len() && ef.head < ef.queue.len()
            invariant
                steps@.len() >= 1,
                steps@[0] == start,
                self.map.wf(),
                self.map.same_shape(&g0),
                g0.wf(),
                total == g0.size(),
                s == (self.sx as int, self.sy as int),
                e == (self.ex as int, self.ey as int),
                s != e,
                sf.inv(g0, s, self.map, VISITED),
                ef.inv(g0, e, self.map, BACKTRACK),
                forall|i: int| 0 <= i < sf.pre@.len() && #[trigger] sf.pre@[i] is Some ==> ef.pre@[i] is None,
                g0.in_bounds_spec(s) ==> self.map.cell(s) == START,
                g0.in_bounds_spec(e) ==> self.map.cell(e) == START,
                forall|c: (int, int)| #[trigger] self.map.cell(c) == g0.cell(c) || c == s || c == e || g0.passable(c),
                forall|c: (int, int)| g0.in_bounds_spec(c) && #[trigger] self.map.cell(c) == PATH ==> g0.cell(c) == PATH
                    && !key(g0, sf.pre@, c) && !key(g0, ef.pre@, c) && c != s && c != e,
                forall|c: (int, int)| #[trigger] g0.passable(c) && self.map.cell(c) != PATH ==> key(g0, sf.pre@, c)
                    || key(g0, ef.pre@, c) || c == s || c == e,
                !found ==> sf.closed(g0, s, e) && ef.closed(g0, e, s),
                found ==> (meeting matches Some(ab) && sf.reached(g0, s, pos(ab.0)) && ef.reached(g0, e, pos(ab.1)) && adjacent(pos(ab.0), pos(ab.1))),
            decreases (total + 1 - sf.head) + (total + 1 - ef.head),
        {
            proof {
                lemma_int_range(0, total);
                lemma_len_subset(entries(sf.pre@), set_int_range(0, total));
                lemma_len_subset(entries(ef.pre@), set_int_range(0, total));
            }
            let expand_start = sf.queue.len() - sf.head <= ef.queue.len() - ef.head;
            if expand_start {
                let ghost old_sf = sf;
                let ghost old_map = self.map;
                let next = &sf.queue[sf.head];
                steps.push(Point::full(next.x, next.y, next.step, 0, Direction::Stay, next.color));
                let r = sf.expand(&mut self.map, Ghost(g0), &ef, Ghost(s), (self.ex, self.ey), VISITED, Color::sky_blue());
                proof {
                    assert forall|i: int| 0 <= i < sf.pre@.len() && #[trigger] sf.pre@[i] is Some implies ef.pre@[i] is None by {
                        if old_sf.pre@[i] is Some {
                        }
                    }
                    assert forall|c: (int, int)| g0.in_bounds_spec(c) && #[trigger] self.map.cell(c) == PATH implies g0.cell(c) == PATH
                        && !key(g0, sf.pre@, c) && !key(g0, ef.pre@, c) && c != s && c != e by {
                        assert(self.map.cell(c) == old_map.cell(c) || (old_map.cell(c) == PATH && key(g0, sf.pre@, c)));
                    }
                    assert(self.map.cell(s) == old_map.cell(s) || old_map.cell(s) == PATH);
                    assert(self.map.cell(e) == old_map.cell(e) || old_map.cell(e) == PATH);
                    assert forall|c: (int, int)| #[trigger] self.map.cell(c) == g0.cell(c) || c == s || c == e || g0.passable(c) by {
                        assert(old_map.cell(c) == g0.cell(c) || c == s || c == e || g0.passable(c));
                        if self.map.cell(c) != old_map.cell(c) {
                            assert(old_map.cell(c) == PATH && g0.in_bounds_spec(c));
                        }
                    }
                    assert forall|c: (int, int)| #[trigger] g0.passable(c) && self.map.cell(c) != PATH implies key(g0, sf.pre@, c)
                        || key(g0, ef.pre@, c) || c == s || c == e by {
                        assert(self.map.cell(c) == old_map.cell(c) || (old_map.cell(c) == PATH && key(g0, sf.pre@, c)));
                        if old_map.cell(c) != PATH && key(g0, old_sf.pre@, c) {
                            assert(key(g0, sf.pre@, c));
                        }
                    }
                }
                match r {
                    Some(ab) => {
                        meeting = Some(ab);
                        found = true;
                    },
                    None => {},
                }
            } else {
                let ghost old_ef = ef;
                let ghost old_map = self.map;
                let next = &ef.queue[ef.head];
                steps.push(Point::full(next.x, next.y, next.step, 0, Direction::Stay, next.color));
                let r = ef.expand(&mut self.map, Ghost(g0), &sf, Ghost(e), (self.sx, self.sy), BACKTRACK, Color::light_red());
                proof {
                    assert forall|i: int| 0 <= i < sf.pre@.len() && #[trigger] sf.pre@[i] is Some implies ef.pre@[i] is None by {
                        assert(old_ef.pre@[i] is None);
                    }
                    assert forall|c: (int, int)| g0.in_bounds_spec(c) && #[trigger] self.map.cell(c) == PATH implies g0.cell(c) == PATH
                        && !key(g0, sf.pre@, c) && !key(g0, ef.pre@, c) && c != s && c != e by {
                        assert(self.map.cell(c) == old_map.cell(c) || (old_map.cell(c) == PATH && key(g0, ef.pre@, c)));
                    }
                    assert(self.map.cell(s) == old_map.cell(s) || old_map.cell(s) == PATH);
                    assert(self.map.cell(e) == old_map.cell(e) || old_map.cell(e) == PATH);
                    assert forall|c: (int, int)| #[trigger] self.map.cell(c) == g0.cell(c) || c == s || c == e || g0.passable(c) by {
                        assert(old_map.cell(c) == g0.cell(c) || c == s || c == e || g0.passable(c));
                        if self.map.cell(c) != old_map.cell(c) {
                            assert(old_map.cell(c) == PATH && g0.in_bounds_spec(c));
                        }
                    }
                    assert forall|c: (int, int)| #[trigger] g0.passable(c) && self.map.cell(c) != PATH implies key(g0, sf.pre@, c)
                        || key(g0, ef.pre@, c) || c == s || c == e by {
                        assert(self.map.cell(c) == old_map.cell(c) || (old_map.cell(c) == PATH && key(g0, ef.pre@, c)));
                        if old_map.cell(c) != PATH && key(g0, old_ef.pre@, c) {
                            assert(key(g0, ef.pre@, c));
                        }
                    }
                }
                match r {
                    Some(ab) => {
                        meeting = Some((ab.1, ab.0));
                        found = true;
                    },
                    None => {},
                }
            }
        }
        let mut path: Vec<Point> = Vec::new();
        if found {
            let (start_meet, end_meet) = meeting.unwrap();
            proof {
                sf.lemma_depth_bound(g0, s, self.map, VISITED, pos(start_meet));
                ef.lemma_depth_bound(g0, e, self.map, BACKTRACK, pos(end_meet));
                let lo = g0.m + 2;
                let hi = if total >= lo { total } else { lo };
                assert(entries(sf.pre@).subset_of(set_int_range(lo, hi)));
                assert(entries(ef.pre@).subset_of(set_int_range(lo, hi)));
                assert(entries(sf.pre@).disjoint(entries(ef.pre@)));
                lemma_int_range(lo, hi);
                lemma_len_subset(entries(sf.pre@), set_int_range(lo, hi));
                lemma_len_subset(entries(ef.pre@), set_int_range(lo, hi));
                lemma_set_disjoint_lens(entries(sf.pre@), entries(ef.pre@));
                lemma_len_subset(entries(sf.pre@) + entries(ef.pre@), set_int_range(lo, hi));
            }
            proof {
                assert forall|c: (int, int)| #[trigger] key(g0, sf.pre@, c) implies !key(g0, ef.pre@, c) by {
                    lemma_idx(g0, c, c);
                    assert(sf.pre@[g0.idx(c)] is Some);
                }
                if key(g0, ef.pre@, s) {
                    assert(self.map.cell(s) == BACKTRACK);
                }
                if key(g0, sf.pre@, e) {
                    assert(self.map.cell(e) == VISITED);
                }
            }
            path = self.reconstruct_path(&sf, &ef, Ghost(g0), &start, &end, &start_meet, &end_meet);
            let ghost before_show = self.map;
            let ghost steps_before = steps@;
            self.show_path(&path, &end, &mut steps);
            proof {
                let tail = solution_entries(path@).push(Point { x: end.x, y: end.y, step: path@.len() as i32, h_cost: 0, direction: Direction::Stay, color: Color::yellow_spec() });
                assert(steps@.subrange(steps@.len() - path@.len() - 1, steps@.len() as int) =~= tail);
                assert forall|c: (int, int)| #[trigger] self.map.cell(c) == g0.cell(c) || c == s || c == e || g0.passable(c) by {
                    if self.map.cell(c) != before_show.cell(c) {
                        let j = choose|j: int| 0 <= j < coords(path@).len() && coords(path@)[j] == c;
                        if 0 < j < path@.len() - 1 {
                            assert(g0.passable(coords(path@)[j]));
                        }
                    }
                }
            }
        } else {
            proof {
                if g0.in_bounds_spec(s) && g0.in_bounds_spec(e) {
                    if sf.head >= sf.queue@.len() {
                        lemma_no_link(g0, sf, s, e);
                    } else {
                        lemma_no_link(g0, ef, e, s);
                        if g0.linked(s, e) {
                            let p = choose|p: Seq<(int, int)>| g0.links(p, s, e);
                            lemma_links_reverse(g0, p, s, e);
                        }
                    }
                }
            }
        }
        let path_length: i32 = if path.len() == 0 { 0 } else { (path.len() - 1) as i32 };
        proof {
            if found {
                assert(g0.linked(s, e));
            }
        }
        DbfsResult { found, steps, path_length, path }
    }

    /// Joins the start side's path (start to `start_meet`) and the end
    /// side's path (`end_meet` to end).
    fn reconstruct_path(
        &self,
        sf: &Frontier,
        ef: &Frontier,
        Ghost(g0): Ghost<Maze>,
        start: &Point,
        end: &Point,
        start_meet: &Point,
        end_meet: &Point,
    ) -> (path: Vec<Point>)
        requires
            self.map.wf(),
            g0.wf(),
            self.map.same_shape(&g0),
            chain_ok(g0, sf.pre@, pos(*start), sf.depth@),
            chain_ok(g0, ef.pre@, pos(*end), ef.depth@),
            pos(*start_meet) == pos(*start) || key(g0, sf.pre@, pos(*start_meet)),
            pos(*end_meet) == pos(*end) || key(g0, ef.pre@, pos(*end_meet)),
            adjacent(pos(*start_meet), pos(*end_meet)),
            depth_of(g0, sf.depth@, pos(*start), pos(*start_meet)) + depth_of(g0, ef.depth@, pos(*end), pos(*end_meet)) + 2 <= i32::MAX,
            forall|c: (int, int)| #[trigger] key(g0, sf.pre@, c) ==> !key(g0, ef.pre@, c),
            !key(g0, ef.pre@, pos(*start)),
            !key(g0, sf.pre@, pos(*end)),
            pos(*start) != pos(*end),
        ensures
            simple(coords(path@)),
            path@.len() <= entries(sf.pre@).len() + entries(ef.pre@).len() + 2,
            g0.links(coords(path@), pos(*start), pos(*end)),
            1 <= path@.len() <= i32::MAX,
    {
        let mut path = trace_path(&self.map, Ghost(g0), &sf.pre, Ghost(sf.depth@), start, start_meet);
        let mut end_path = trace_forward(&self.map, Ghost(g0), &ef.pre, Ghost(ef.depth@), end, end_meet);
        let ghost a = coords(path@);
        let ghost b = coords(end_path@);
        path.append(&mut end_path);
        proof {
            let p = coords(path@);
            assert(p =~= a + b);
            assert forall|i: int| 0 < i < p.len() implies #[trigger] adjacent(p[i - 1], p[i]) by {
                if i < a.len() {
                    assert(g0.passable(a[i]) && adjacent(a[i - 1], a[i]));
                } else if i > a.len() {
                    assert(adjacent(b[(i - a.len()) - 1], b[i - a.len()]));
                }
            }
            assert forall|i: int| 0 < i < p.len() - 1 implies #[trigger] g0.passable(p[i]) by {
                if i < a.len() {
                    assert(g0.passable(a[i]) && adjacent(a[i - 1], a[i]));
                } else {
                    assert(g0.passable(b[i - a.len()]));
                }
            }
            assert forall|i: int, j: int| 0 <= i < j < p.len() implies p[i] != p[j] by {
                if j < a.len() {
                } else if i >= a.len() {
                    assert(p[i] == b[i - a.len()] && p[j] == b[j - a.len()]);
                } else {
                    assert(p[j] == b[j - a.len()]);
                    if i > 0 {
                        assert(key(g0, sf.pre@, a[i]));
                    }
                    if j - a.len() < b.len() - 1 {
                        assert(key(g0, ef.pre@, b[j - a.len()]));
                    }
                }
            }
        }
        path
    }

    /// Marks every cell of `path` as solution and records it in `steps`
    /// (numbered from 1), followed by the end marker.
    fn show_path(&mut self, path: &Vec<Point>, end: &Point, steps: &mut Vec<Point>)
        requires
            old(self).map.wf(),
            path@.len() <= i32::MAX,
        ensures
            final(self).map.wf(),
            final(self).map.same_shape(&old(self).map),
            final(self).sx == old(self).sx && final(self).sy == old(self).sy,
            final(self).ex == old(self).ex && final(self).ey == old(self).ey,
            final(steps)@ == old(steps)@ + solution_entries(path@).push(
                Point { x: end.x, y: end.y, step: path@.len() as i32, h_cost: 0, direction: Direction::Stay, color: Color::yellow_spec() },
            ),
            forall|k: int| 0 <= k < path@.len() && final(self).map.in_bounds_spec(pos(path@[k])) ==> #[trigger] final(self).map.cell(pos(path@[k])) == SOLUTION,
            forall|c: (int, int)| #[trigger] final(self).map.cell(c) == old(self).map.cell(c) || coords(path@).contains(c),
    {
        let ghost m0 = self.map;
        let ghost first = steps@;
        let mut step_count: i32 = 0;
        let mut i: usize = 0;
        while i < path.len()
            invariant
                self.map.wf(),
                self.map.same_shape(&m0),
                self.sx == old(self).sx && self.sy == old(self).sy,
                self.ex == old(self).ex && self.ey == old(self).ey,
                i <= path@.len(),
                path@.len() <= i32::MAX,
                step_count == i,
                steps@ == first + solution_entries(path@.subrange(0, i as int)),
                forall|k: int| 0 <= k < i && self.map.in_bounds_spec(pos(path@[k])) ==> #[trigger] self.map.cell(pos(path@[k])) == SOLUTION,
                forall|c: (int, int)| #[trigger] self.map.cell(c) == m0.cell(c) || coords(path@.subrange(0, i as int)).contains(c),
            decreases path@.len() - i,
        {
            let p = path[i].copy();
            let ghost before = self.map;
            self.map.set_cell(p.x, p.y, SOLUTION);
            step_count = step_count + 1;
            steps.push(Point::full(p.x, p.y, step_count, 0, p.direction, Color::aquamarine()));
            proof {
                let done = path@.subrange(0, i + 1);
                assert(solution_entries(done) =~= solution_entries(path@.subrange(0, i as int)).push(
                    Point { x: p.x, y: p.y, step: (i + 1) as i32, h_cost: 0, direction: p.direction, color: Color::aquamarine_spec() },
                ));
                assert(coords(done) =~= coords(path@.subrange(0, i as int)).push(pos(p)));
                assert forall|c: (int, int)| #[trigger] self.map.cell(c) == m0.cell(c) || coords(done).contains(c) by {
                    if self.map.cell(c) != m0.cell(c) {
                        if c == pos(p) {
                            assert(coords(done)[i as int] == c);
                        } else {
                            assert(before.cell(c) == self.map.cell(c));
                            let j = choose|j: int| 0 <= j < i && coords(path@.subrange(0, i as int))[j] == c;
                            assert(coords(done)[j] == c);
                        }
                    }
                }
            }
            i = i + 1;
        }
        steps.push(Point::full(end.x, end.y, step_count, 0, Direction::Stay, Color::yellow()));
        proof {
            assert(path@.subrange(0, path@.len() as int) =~= path@);
        }
    }

    /// The maze as the search left it.
    pub fn map(&self) -> (r: &Maze)
        ensures
            *r == self.map,
    {
        &self.map
    }

    /// The maze, for changing it in place.
    pub fn map_mut(&mut self) -> (r: &mut Maze)
        ensures
            *r == old(self).map,
            *final(self) == (DBFS { map: *final(r), ..*old(self) }),
    {
        &mut self.map
    }
}

/// Runs a bidirectional search from `(sx, sy)` to `(ex, ey)` on a copy of
/// `map`, then leaves the explored copy in `map`.
pub fn dbfs_search(map: &mut Maze, sx: i32, sy: i32, ex: i32, ey: i32) -> (r: DbfsResult)
    requires
        old(map).wf(),
    ensures
        final(map).wf(),
        final(map).same_shape(old(map)),
        r.steps@.len() >= 1,
        pos(r.steps@[0]) == (sx as int, sy as int),
        r.steps@[0].color == Color::yellow_spec(),
        r.found ==> old(map).links(coords(r.path@), (sx as int, sy as int), (ex as int, ey as int)),
        r.found ==> r.path@.len() == r.path_length + 1,
        r.found ==> simple(coords(r.path@)),
        r.found == ((sx == ex && sy == ey) || (old(map).in_bounds_spec((sx as int, sy as int)) && old(map).in_bounds_spec((ex as int, ey as int))
            && old(map).linked((sx as int, sy as int), (ex as int, ey as int)))),
        !r.found ==> r.path_length == 0 && r.path@.len() == 0,
        forall|c: (int, int)| #[trigger] final(map).cell(c) != old(map).cell(c) ==> c == (sx as int, sy as int) || c == (ex as int, ey as int) || old(map).passable(c),
        r.found ==> r.steps@.len() >= r.path@.len() + 1 && r.steps@.subrange(r.steps@.len() - r.path@.len() - 1, r.steps@.len() as int) == solution_entries(r.path@).push(
            Point { x: ex, y: ey, step: r.path@.len() as i32, h_cost: 0, direction: Direction::Stay, color: Color::yellow_spec() },
        ),
        r.found ==> forall|k: int| 0 <= k < r.path@.len() && old(map).in_bounds_spec(pos(r.path@[k])) ==> #[trigger] final(map).cell(pos(r.path@[k])) == SOLUTION,
{
    let mut dbfs = DBFS::new(map.duplicate(), sx, sy, ex, ey);
    proof {
        dbfs.map.lemma_same_links(old(map));
    }
    let result = dbfs.search();
    *map = dbfs.map;
    result
}

/// A walk from `s` to `e` read backwards links `e` to `s`.
proof fn lemma_links_reverse(g: Maze, p: Seq<(int, int)>, s: (int, int), e: (int, int))
    requires
        g.links(p, s, e),
    ensures
        g.links(p.reverse(), e, s),
{
    let q = p.reverse();
    assert forall|i: int| 0 < i < q.len() implies #[trigger] adjacent(q[i - 1], q[i]) by {
        let j = p.len() - i;
        assert(adjacent(p[j - 1], p[j]));
    }
    assert forall|i: int| 0 < i < q.len() - 1 implies #[trigger] g.passable(q[i]) by {
        assert(g.passable(p[p.len() - 1 - i]));
    }
}

proof fn lemma_walk_reached(g: Maze, f: Frontier, root: (int, int), other: (int, int), p: Seq<(int, int)>, i: int)
    requires
        f.closed(g, root, other),
        f.head == f.queue@.len(),
        forall|c: (int, int)| #[trigger] key(g, f.pre@, c) ==> 0 < f.at@[g.idx(c)] < f.queue@.len() && pos(f.queue@[f.at@[g.idx(c)]]) == c,
        f.queue@.len() >= 1,
        pos(f.queue@[0]) == root,
        g.links(p, root, other),
        0 <= i < p.len() - 1,
    ensures
        f.reached(g, root, p[i]),
    decreases i,
{
    if i > 0 {
        lemma_walk_reached(g, f, root, other, p, i - 1);
        let a = p[i - 1];
        let j = if a == root { 0 } else { f.at@[g.idx(a)] };
        assert(pos(f.queue@[j]) == a);
        assert(adjacent(p[i - 1], p[i]));
        lemma_adjacent_dir(a, p[i]);
        let k = choose|k: int| 0 <= k < 4 && moved(a, #[trigger] scan_dir(k)) == p[i];
        assert(g.passable(p[i]));
        assert(g.passable(moved(pos(f.queue@[j]), scan_dir(k))));
    }
}

/// A side that has expanded everything it reached, never finding an inside
/// neighbour at `other`, shows that no walk links its root to `other`.
proof fn lemma_no_link(g: Maze, f: Frontier, root: (int, int), other: (int, int))
    requires
        f.closed(g, root, other),
        f.head == f.queue@.len(),
        forall|c: (int, int)| #[trigger] key(g, f.pre@, c) ==> 0 < f.at@[g.idx(c)] < f.queue@.len() && pos(f.queue@[f.at@[g.idx(c)]]) == c,
        f.queue@.len() >= 1,
        pos(f.queue@[0]) == root,
        g.in_bounds_spec(other),
        root != other,
    ensures
        !g.linked(root, other),
{
    if g.linked(root, other) {
        let p = choose|p: Seq<(int, int)>| g.links(p, root, other);
        let n = p.len() - 2;
        lemma_walk_reached(g, f, root, other, p, n);
        let a = p[n];
        let j = if a == root { 0 } else { f.at@[g.idx(a)] };
        assert(pos(f.queue@[j]) == a);
        assert(adjacent(p[(n + 1) - 1], p[n + 1]));
        lemma_adjacent_dir(a, other);
        let k = choose|k: int| 0 <= k < 4 && moved(a, #[trigger] scan_dir(k)) == other;
        assert(g.in_bounds_spec(moved(pos(f.queue@[j]), scan_dir(k))));
    }
}

} // verus!
