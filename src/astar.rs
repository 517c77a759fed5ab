//! A* search with the Manhattan-distance heuristic.
use vstd::prelude::*;
use vstd::set_lib::*;
use crate::map::{adjacent, moved, scan_dir, scan_direction, Maze, PATH, START, VISITED};
use crate::point::{pos, Color, Direction, Point};
use crate::tree::simple;
use crate::search::{lemma_key_reachable, cell_index, chain_ok, coords, empty_table, entries, key, lemma_idx, lemma_unreachable, link_ok, mark_trace, parent, trace_path};

verus! {

/// Outcome of an A* search.
#[derive(Debug)]
pub struct AStarResult {
    pub found: bool,
    /// The trace, in replay order.
    pub steps: Vec<Point>,
    /// Number of moves on the path found; 0 when none was found.
    pub path_length: i32,
    /// The path from start to end.
    pub path: Vec<Point>,
}

/// An A* search over its own copy of a maze.
pub struct AStar {
    pub map: Maze,
    pub sx: i32,
    pub sy: i32,
    pub ex: i32,
    pub ey: i32,
}

/// Manhattan distance, capped at `i32::MAX`.
pub open spec fn manhattan(a: (int, int), b: (int, int)) -> int {
    let dx = if a.0 >= b.0 { a.0 - b.0 } else { b.0 - a.0 };
    let dy = if a.1 >= b.1 { a.1 - b.1 } else { b.1 - a.1 };
    if dx + dy > i32::MAX { i32::MAX as int } else { dx + dy }
}

/// The A* priority of a node: cost so far plus estimate.
pub open spec fn f_of(p: Point) -> int {
    p.step + p.h_cost
}

/// Indices of the nodes still in the frontier.
pub open spec fn live(alive: Seq<bool>) -> Set<int> {
    Set::new(|j: int| 0 <= j < alive.len() && alive[j])
}

/// The frontier entry to expand next: the live node of least `g + h`,
/// the earliest such on ties; `None` when no node is live.
fn select_min(nodes: &Vec<Point>, alive: &Vec<bool>) -> (r: Option<usize>)
    requires
        nodes@.len() == alive@.len(),
    ensures
        r is None <==> live(alive@) == Set::<int>::empty(),
        r matches Some(i) ==> i < alive@.len() && alive@[i as int]
            && (forall|j: int| 0 <= j < alive@.len() && alive@[j] ==> f_of(nodes@[i as int]) <= f_of(#[trigger] nodes@[j]))
            && (forall|j: int| 0 <= j < i && alive@[j] ==> f_of(nodes@[i as int]) < f_of(#[trigger] nodes@[j])),
{
    let mut best: Option<usize> = None;
    let mut best_f: i64 = 0;
    let mut j: usize = 0;
    while j < nodes.len()
        invariant
            nodes@.len() == alive@.len(),
            j <= nodes@.len(),
            best is None <==> forall|t: int| 0 <= t < j ==> !alive@[t],
            best matches Some(i) ==> i < j && alive@[i as int] && best_f == f_of(nodes@[i as int])
                && (forall|t: int| 0 <= t < j && alive@[t] ==> f_of(nodes@[i as int]) <= f_of(#[trigger] nodes@[t]))
                && (forall|t: int| 0 <= t < i && alive@[t] ==> f_of(nodes@[i as int]) < f_of(#[trigger] nodes@[t])),
        decreases nodes@.len() - j,
    {
        if alive[j] {
            let f = nodes[j].step as i64 + nodes[j].h_cost as i64;
            match best {
                None => {
                    best = Some(j);
                    best_f = f;
                },
                Some(_) => {
                    if f < best_f {
                        best = Some(j);
                        best_f = f;
                    }
                },
            }
        }
        j = j + 1;
    }
    proof {
        if best is None {
            assert(live(alive@) =~= Set::<int>::empty());
        } else {
            let i = best->Some_0;
            assert(live(alive@).contains(i as int));
        }
    }
    best
}

impl AStar {
    pub fn new(map: Maze, sx: i32, sy: i32, ex: i32, ey: i32) -> (r: AStar)
        ensures
            r == (AStar { map, sx, sy, ex, ey }),
    {
        AStar { map, sx, sy, ex, ey }
    }

    /// Manhattan distance from `(x, y)` to the end, capped at `i32::MAX`.
    fn heuristic(&self, x: i32, y: i32) -> (h: i32)
        ensures
            h == manhattan((self.ex as int, self.ey as int), (x as int, y as int)),
            h >= 0,
    {
        let dx: i64 = if self.ex as i64 >= x as i64 { self.ex as i64 - x as i64 } else { x as i64 - self.ex as i64 };
        let dy: i64 = if self.ey as i64 >= y as i64 { self.ey as i64 - y as i64 } else { y as i64 - self.ey as i64 };
        if dx + dy > i32::MAX as i64 {
            i32::MAX
        } else {
            (dx + dy) as i32
        }
    }

    /// Expands frontier nodes in order of least `g + h` (earliest first on
    /// ties), marking cells as they are generated, until the end is taken
    /// from the frontier or the frontier is empty.
    pub fn search(&mut self) -> (r: AStarResult)
        requires
            old(self).map.wf(),
        ensures
            final(self).map.wf(),
            final(self).map.same_shape(&old(self).map),
            final(self).sx == old(self).sx && final(self).sy == old(self).sy,
            final(self).ex == old(self).ex && final(self).ey == old(self).ey,
            r.steps@.len() >= 1,
            r.path@.len() >= 1 && pos(r.path@[0]) == (old(self).sx as int, old(self).sy as int),
            pos(r.steps@[0]) == (old(self).sx as int, old(self).sy as int),
            r.steps@[0].color == Color::yellow_spec(),
            r.found == old(self).map.reachable((old(self).sx as int, old(self).sy as int), (old(self).ex as int, old(self).ey as int)),
            r.found ==> old(self).map.is_route(coords(r.path@), (old(self).sx as int, old(self).sy as int), (old(self).ex as int, old(self).ey as int)),
            r.found ==> r.path@.len() == r.path_length + 1,
            r.found ==> simple(coords(r.path@)),
            r.found ==> pos(r.steps@.last()) == (old(self).sx as int, old(self).sy as int) && r.steps@.last().color == Color::yellow_spec(),
            forall|i: int, j: int| 0 <= i < j < r.steps@.len() && #[trigger] r.steps@[i].color == Color::sky_blue_spec() && #[trigger] r.steps@[j].color == Color::sky_blue_spec()
                ==> pos(r.steps@[i]) != pos(r.steps@[j]),
            forall|c: (int, int)| #[trigger] final(self).map.cell(c) != old(self).map.cell(c) ==> c == (old(self).sx as int, old(self).sy as int)
                || (old(self).map.passable(c) && old(self).map.reachable((old(self).sx as int, old(self).sy as int), c)),
            !r.found ==> r.path_length == 0 && r.path@.len() == 1,
    {
        let ghost g0 = self.map;
        let ghost s = (self.sx as int, self.sy as int);
        let ghost e = (self.ex as int, self.ey as int);
        let ghost total = g0.size();
        proof {
            g0.lemma_dims();
        }
        let mut steps: Vec<Point> = Vec::new();
        let mut nodes: Vec<Point> = Vec::new();
        let mut alive: Vec<bool> = Vec::new();
        let mut pre = empty_table(&self.map);
        let ghost mut depth: Seq<int> = Seq::new(total as nat, |i: int| 0);
        let ghost mut at: Seq<int> = Seq::new(total as nat, |i: int| 0);
        let mut start = Point::with_color(self.sx, self.sy, Color::yellow());
        start.step = 0;
        start.h_cost = self.heuristic(self.sx, self.sy);
        let end = Point::new(self.ex, self.ey);
        nodes.push(start.copy());
        alive.push(true);
        self.map.set_cell(self.sx, self.sy, START);
        steps.push(start.copy());
        let mut found = false;
        let mut exhausted = false;
        let mut final_step: i32 = 0;
        let mut fi: usize = 0;
        let ghost mut src: Seq<int> = seq![0int];
        proof {
            assert(entries(pre@) =~= Set::<int>::empty());
            assert forall|c: (int, int)| !#[trigger] key(g0, pre@, c) by {
                if g0.in_bounds_spec(c) {
                    lemma_idx(g0, c, c);
                }
            }
            assert(live(alive@) =~= set![0int]);
        }
        while !found && !exhausted
            invariant
                steps@.len() >= 1,
                steps@[0] == start,
                src.len() == steps@.len(),
                nodes@[0].color == Color::yellow_spec(),
                forall|k: int| 0 < k < nodes@.len() ==> #[trigger] nodes@[k].color == Color::sky_blue_spec(),
                forall|k: int| 0 < k < nodes@.len() ==> at[g0.idx(pos(#[trigger] nodes@[k]))] == k,
                forall|i: int| 0 <= i < steps@.len() && #[trigger] steps@[i].color == Color::sky_blue_spec() ==> 0 < src[i] < nodes@.len() && !alive@[src[i]]
                    && pos(steps@[i]) == pos(nodes@[src[i]]),
                forall|i: int, j: int| 0 <= i < j < steps@.len() && #[trigger] steps@[i].color == Color::sky_blue_spec() && #[trigger] steps@[j].color == Color::sky_blue_spec() ==> src[i] != src[j],
                self.map.wf(),
                self.map.same_shape(&g0),
                g0.wf(),
                total == g0.size(),
                s == (self.sx as int, self.sy as int),
                e == (self.ex as int, self.ey as int),
                self.sx == start.x && self.sy == start.y,
                self.ex == end.x && self.ey == end.y,
                pos(start) == s,
                pos(end) == e,
                chain_ok(g0, pre@, s, depth),
                at.len() == total,
                nodes@.len() >= 1,
                nodes@.len() == alive@.len(),
                pos(nodes@[0]) == s,
                nodes@[0].step == 0,
                nodes@.len() == 1 + entries(pre@).len(),
                forall|k: int| 0 < k < nodes@.len() ==> key(g0, pre@, pos(#[trigger] nodes@[k])) && depth[g0.idx(pos(nodes@[k]))] == nodes@[k].step,
                forall|k: int| 0 <= k < nodes@.len() ==> 0 <= #[trigger] nodes@[k].step <= k && 0 <= nodes@[k].h_cost,
                forall|c: (int, int)| #[trigger] key(g0, pre@, c) ==> 0 < at[g0.idx(c)] < nodes@.len() && pos(nodes@[at[g0.idx(c)]]) == c,
                forall|c: (int, int)| g0.in_bounds_spec(c) ==> #[trigger] self.map.cell(c) == g0.cell(c) || key(g0, pre@, c) || c == s,
                forall|c: (int, int)| #[trigger] key(g0, pre@, c) ==> self.map.cell(c) == VISITED,
                g0.in_bounds_spec(s) ==> self.map.cell(s) == START,
                !found ==> forall|j: int| 0 <= j < nodes@.len() && !alive@[j] ==> pos(#[trigger] nodes@[j]) != e,
                !found ==> forall|j: int, k: int| 0 <= j < nodes@.len() && !alive@[j] && 0 <= k < 4 && #[trigger] g0.passable(moved(pos(nodes@[j]), scan_dir(k))) ==> {
                    let c = moved(pos(nodes@[j]), scan_dir(k));
                    c == s || key(g0, pre@, c)
                },
                exhausted ==> live(alive@) == Set::<int>::empty(),
                found ==> fi < nodes@.len() && pos(nodes@[fi as int]) == e && final_step == nodes@[fi as int].step,
                !found ==> final_step == 0,
            decreases total + 1 - nodes@.len() + live(alive@).len() + (if found || exhausted { 0int } else { 1int }),
        {
            proof {
                lemma_int_range(0, total);
                lemma_len_subset(entries(pre@), set_int_range(0, total));
                lemma_int_range(0, alive@.len() as int);
                lemma_len_subset(live(alive@), set_int_range(0, alive@.len() as int));
            }
            match select_min(&nodes, &alive) {
                None => {
                    exhausted = true;
                },
                Some(ci) => {
                    let ghost old_live = live(alive@);
                    alive.set(ci, false);
                    proof {
                        assert(live(alive@) =~= old_live.remove(ci as int));
                    }
                    let current = nodes[ci].copy();
                    let ghost s1 = steps@;
                    let ghost src1 = src;
                    steps.push(current.copy());
                    proof {
                        src = src.push(ci as int);
                        assert forall|i: int| 0 <= i < steps@.len() && #[trigger] steps@[i].color == Color::sky_blue_spec() implies 0 < src[i] < nodes@.len() && !alive@[src[i]]
                            && pos(steps@[i]) == pos(nodes@[src[i]]) by {
                            if i < s1.len() {
                                assert(steps@[i] == s1[i] && src[i] == src1[i]);
                            } else {
                                if ci == 0 {
                                    assert(nodes@[0].color == Color::yellow_spec());
                                }
                            }
                        }
                        assert forall|i: int, j: int| 0 <= i < j < steps@.len() && #[trigger] steps@[i].color == Color::sky_blue_spec() && #[trigger] steps@[j].color == Color::sky_blue_spec() implies src[i] != src[j] by {
                            assert(steps@[i] == s1[i] && src[i] == src1[i]);
                            if j < s1.len() {
                                assert(steps@[j] == s1[j] && src[j] == src1[j]);
                            } else {
                                assert(!alive@[src1[i]]);
                            }
                        }
                    }
                    if current == end {
                        found = true;
                        final_step = current.step;
                        fi = ci;
                    } else {
                        let ghost old_n = nodes@.len() as int;
                        proof {
                            lemma_int_range(0, alive@.len() as int);
                            lemma_len_subset(live(alive@), set_int_range(0, alive@.len() as int));
                        }
                        let mut k: usize = 0;
                        while k < 4
                            invariant
                                steps@.len() >= 1,
                                steps@[0] == start,
                                src.len() == steps@.len(),
                                nodes@[0].color == Color::yellow_spec(),
                                forall|k: int| 0 < k < nodes@.len() ==> #[trigger] nodes@[k].color == Color::sky_blue_spec(),
                                forall|k: int| 0 < k < nodes@.len() ==> at[g0.idx(pos(#[trigger] nodes@[k]))] == k,
                                forall|i: int| 0 <= i < steps@.len() && #[trigger] steps@[i].color == Color::sky_blue_spec() ==> 0 < src[i] < nodes@.len() && !alive@[src[i]]
                                    && pos(steps@[i]) == pos(nodes@[src[i]]),
                                forall|i: int, j: int| 0 <= i < j < steps@.len() && #[trigger] steps@[i].color == Color::sky_blue_spec() && #[trigger] steps@[j].color == Color::sky_blue_spec() ==> src[i] != src[j],
                                self.map.wf(),
                                self.map.same_shape(&g0),
                                g0.wf(),
                                total == g0.size(),
                                s == (self.sx as int, self.sy as int),
                                e == (self.ex as int, self.ey as int),
                                self.sx == start.x && self.sy == start.y,
                                self.ex == end.x && self.ey == end.y,
                                chain_ok(g0, pre@, s, depth),
                                at.len() == total,
                                !found,
                                !exhausted,
                                k <= 4,
                                ci < nodes@.len(),
                                current == nodes@[ci as int],
                                !alive@[ci as int],
                                pos(current) != e,
                                nodes@.len() >= 1,
                                nodes@.len() == alive@.len(),
                                pos(nodes@[0]) == s,
                                nodes@[0].step == 0,
                                nodes@.len() == 1 + entries(pre@).len(),
                                live(alive@).finite(),
                                live(alive@).len() + old_n == old_live.len() - 1 + nodes@.len(),
                                forall|i: int| 0 < i < nodes@.len() ==> key(g0, pre@, pos(#[trigger] nodes@[i])) && depth[g0.idx(pos(nodes@[i]))] == nodes@[i].step,
                                forall|i: int| 0 <= i < nodes@.len() ==> 0 <= #[trigger] nodes@[i].step <= i && 0 <= nodes@[i].h_cost,
                                forall|c: (int, int)| #[trigger] key(g0, pre@, c) ==> 0 < at[g0.idx(c)] < nodes@.len() && pos(nodes@[at[g0.idx(c)]]) == c,
                                forall|c: (int, int)| g0.in_bounds_spec(c) ==> #[trigger] self.map.cell(c) == g0.cell(c) || key(g0, pre@, c) || c == s,
                                forall|c: (int, int)| #[trigger] key(g0, pre@, c) ==> self.map.cell(c) == VISITED,
                                g0.in_bounds_spec(s) ==> self.map.cell(s) == START,
                                forall|j: int| 0 <= j < nodes@.len() && !alive@[j] ==> pos(#[trigger] nodes@[j]) != e,
                                forall|j: int, d: int| 0 <= j < nodes@.len() && !alive@[j] && 0 <= d < 4 && (j != ci || d < k) && #[trigger] g0.passable(moved(pos(nodes@[j]), scan_dir(d))) ==> {
                                    let c = moved(pos(nodes@[j]), scan_dir(d));
                                    c == s || key(g0, pre@, c)
                                },
                            decreases 4 - k,
                        {
                            let dir = scan_direction(k);
                            let ghost cp = pos(current);
                            match self.map.neighbor(current.x, current.y, dir) {
                                Some((nx, ny)) => {
                                    let ghost c = (nx as int, ny as int);
                                    if self.map.get_cell(nx, ny) == PATH {
                                        let i = cell_index(&self.map, nx, ny);
                                        proof {
                                            assert(!key(g0, pre@, c));
                                            assert(c != s);
                                            assert(g0.passable(c));
                                            assert(!entries(pre@).contains(i as int));
                                            lemma_int_range(0, total);
                                            lemma_len_subset(entries(pre@), set_int_range(0, total).remove(i as int));
                                            assert(current.step + 1 <= nodes@.len());
                                            if cp != s {
                                                assert(key(g0, pre@, cp));
                                            } else {
                                                assert(ci == 0) by {
                                                    if ci > 0 {
                                                        assert(key(g0, pre@, pos(nodes@[ci as int])));
                                                    }
                                                }
                                            }
                                        }
                                        let ghost old_pre = pre@;
                                        let ghost old_q = nodes@;
                                        let ghost old_alive = alive@;
                                        let ghost old_depth = depth;
                                        let mut neighbor = Point::new(nx, ny);
                                        neighbor.step = current.step + 1;
                                        neighbor.h_cost = self.heuristic(nx, ny);
                                        neighbor.direction = dir;
                                        neighbor.color = Color::sky_blue();
                                        nodes.push(neighbor);
                                        alive.push(true);
                                        pre.set(i, Some(current.copy()));
                                        proof {
                                            depth = depth.update(i as int, current.step + 1);
                                            at = at.update(i as int, old_q.len() as int);
                                            assert(entries(pre@) =~= entries(old_pre).insert(i as int));
                                            assert(live(alive@) =~= live(old_alive).insert(old_q.len() as int));
                                            assert forall|kk: int| 0 < kk < nodes@.len() implies at[g0.idx(pos(#[trigger] nodes@[kk]))] == kk by {
                                                if kk < old_q.len() {
                                                    assert(nodes@[kk] == old_q[kk]);
                                                    assert(key(g0, old_pre, pos(old_q[kk])));
                                                    lemma_idx(g0, pos(old_q[kk]), c);
                                                }
                                            }
                                            assert forall|ii: int| 0 <= ii < steps@.len() && #[trigger] steps@[ii].color == Color::sky_blue_spec() implies 0 < src[ii] < nodes@.len() && !alive@[src[ii]]
                                                && pos(steps@[ii]) == pos(nodes@[src[ii]]) by {
                                                assert(nodes@[src[ii]] == old_q[src[ii]]);
                                                assert(alive@[src[ii]] == old_alive[src[ii]]);
                                            }
                                            assert forall|x: (int, int)| key(g0, old_pre, x) || x == c <==> #[trigger] key(g0, pre@, x) by {
                                                if g0.in_bounds_spec(x) {
                                                    lemma_idx(g0, x, c);
                                                }
                                            }
                                            assert forall|x: (int, int)| #[trigger] key(g0, pre@, x) implies link_ok(g0, pre@, s, depth, x) by {
                                                lemma_idx(g0, x, c);
                                                if x != c {
                                                    assert(key(g0, old_pre, x));
                                                    assert(link_ok(g0, old_pre, s, old_depth, x));
                                                    let p = parent(g0, old_pre, x);
                                                    if key(g0, old_pre, p) {
                                                        lemma_idx(g0, p, c);
                                                    }
                                                } else {
                                                    assert(parent(g0, pre@, c) == cp);
                                                    assert(adjacent(cp, c)) by {
                                                        assert(dir == scan_dir(k as int));
                                                        assert(c == moved(cp, dir));
                                                    }
                                                    if cp == s {
                                                        assert(current.step == 0);
                                                    } else {
                                                        assert(ci > 0);
                                                        assert(key(g0, old_pre, cp));
                                                        lemma_idx(g0, cp, c);
                                                        assert(depth[g0.idx(cp)] == current.step);
                                                    }
                                                }
                                            }
                                            assert forall|x: (int, int)| #[trigger] key(g0, pre@, x) implies 0 < at[g0.idx(x)] < nodes@.len() && pos(nodes@[at[g0.idx(x)]]) == x by {
                                                lemma_idx(g0, x, c);
                                                if x != c {
                                                    assert(key(g0, old_pre, x));
                                                }
                                            }
                                            assert forall|ii: int| 0 < ii < nodes@.len() implies key(g0, pre@, pos(#[trigger] nodes@[ii])) && depth[g0.idx(pos(nodes@[ii]))] == nodes@[ii].step by {
                                                if ii < old_q.len() {
                                                    assert(key(g0, old_pre, pos(old_q[ii])));
                                                    lemma_idx(g0, pos(old_q[ii]), c);
                                                }
                                            }
                                            assert forall|j: int| 0 <= j < nodes@.len() && !alive@[j] implies pos(#[trigger] nodes@[j]) != e by {
                                                assert(j < old_q.len());
                                                assert(old_q[j] == nodes@[j]);
                                                assert(!old_alive[j]);
                                            }
                                            assert forall|j: int, d: int| 0 <= j < nodes@.len() && !alive@[j] && 0 <= d < 4 && (j != ci || d < k) && #[trigger] g0.passable(moved(pos(nodes@[j]), scan_dir(d))) implies {
                                                let c2 = moved(pos(nodes@[j]), scan_dir(d));
                                                c2 == s || key(g0, pre@, c2)
                                            } by {
                                                assert(j < old_q.len());
                                                assert(old_q[j] == nodes@[j]);
                                                assert(!old_alive[j]);
                                                let c2 = moved(pos(nodes@[j]), scan_dir(d));
                                                assert(c2 == s || key(g0, old_pre, c2));
                                            }
                                        }
                                        self.map.set_cell(nx, ny, VISITED);
                                        proof {
                                            assert forall|x: (int, int)| #[trigger] key(g0, pre@, x) implies self.map.cell(x) == VISITED by {
                                                lemma_idx(g0, x, c);
                                            }
                                        }
                                    }
                                },
                                None => {},
                            }
                            k = k + 1;
                        }
                    }
                },
            }
        }
        let ghost looped = steps@;
        let ghost mut s_end: Seq<Point> = looped;
        let ghost mut s_mt: Seq<Point> = looped;
        if found {
            let mut end_point = nodes[fi].copy();
            end_point.color = Color::yellow();
            steps.push(end_point);
            proof {
                s_end = steps@;
            }
            proof {
                if e != s {
                    assert(fi > 0);
                    assert(key(g0, pre@, pos(nodes@[fi as int])));
                }
            }
            mark_trace(&mut self.map, Ghost(g0), &pre, Ghost(depth), &start, end.copy(), &mut steps, false);
            proof {
                s_mt = steps@;
            }
            let mut final_start = start.copy();
            final_start.color = Color::yellow();
            steps.push(final_start);
        } else {
            proof {
                let seen = |c: (int, int)| c == s || key(g0, pre@, c);
                assert forall|j: int| 0 <= j < nodes@.len() implies !alive@[j] by {
                    if alive@[j] {
                        assert(live(alive@).contains(j));
                    }
                }
                assert forall|c: (int, int), k: int| seen(c) && 0 <= k < 4 && #[trigger] g0.passable(moved(c, scan_dir(k))) implies seen(moved(c, scan_dir(k))) by {
                    if c == s {
                        assert(!alive@[0]);
                        assert(g0.passable(moved(pos(nodes@[0]), scan_dir(k))));
                    } else {
                        let j = at[g0.idx(c)];
                        assert(!alive@[j]);
                        assert(g0.passable(moved(pos(nodes@[j]), scan_dir(k))));
                    }
                }
                if e == s {
                    assert(!alive@[0]);
                    assert(pos(nodes@[0]) != e);
                }
                if key(g0, pre@, e) {
                    let j = at[g0.idx(e)];
                    assert(!alive@[j]);
                    assert(pos(nodes@[j]) != e);
                }
                lemma_unreachable(g0, seen, s, e);
            }
        }
        let path = trace_path(&self.map, Ghost(g0), &pre, Ghost(depth), &start, &end);
        proof {
            if found {
                if e != s {
                    assert(fi > 0);
                    assert(key(g0, pre@, pos(nodes@[fi as int])));
                }
            }
        }
        proof {
            assert forall|c: (int, int)| #[trigger] self.map.cell(c) != g0.cell(c) implies c == s || (g0.passable(c) && g0.reachable(s, c)) by {
                if g0.in_bounds_spec(c) && c != s {
                    lemma_key_reachable(g0, pre@, s, depth, c);
                }
            }
        }
        proof {
            assert forall|i: int, j: int| 0 <= i < j < steps@.len() && #[trigger] steps@[i].color == Color::sky_blue_spec() && #[trigger] steps@[j].color == Color::sky_blue_spec()
                implies pos(steps@[i]) != pos(steps@[j]) by {
                if found {
                    assert(s_end == looped.push(s_end.last()));
                    assert(s_end.last().color == Color::yellow_spec());
                    assert(s_mt.subrange(0, s_end.len() as int) == s_end);
                    assert(steps@ == s_mt.push(steps@.last()));
                    if j >= looped.len() {
                        if j == looped.len() {
                            assert(s_mt.subrange(0, s_end.len() as int)[j] == s_end[j]);
                        } else if j < s_mt.len() {
                            assert(s_mt[j].color == Color::light_red_spec());
                        }
                    }
                    assert(s_mt.subrange(0, s_end.len() as int)[i] == s_end[i]);
                    assert(s_mt.subrange(0, s_end.len() as int)[j] == s_end[j]);
                }
                assert(steps@[i] == looped[i] && steps@[j] == looped[j]);
                assert(src[i] != src[j]);
                assert(at[g0.idx(pos(nodes@[src[i]]))] == src[i]);
                assert(at[g0.idx(pos(nodes@[src[j]]))] == src[j]);
            }
        }
        AStarResult { found, steps, path_length: final_step, path }
    }

    /// The maze as the search left it.
    pub fn map(&self) -> (r: &Maze)
        ensures
            *r == self.map,
    {
        &self.map
    }

    /// The maze, for changing it in place.
    pub fn map_mut(&mut self) -> (r: &mut Maze)
        ensures
            *r == old(self).map,
            *final(self) == (AStar { map: *final(r), ..*old(self) }),
    {
        &mut self.map
    }
}

/// Runs an A* search from `(sx, sy)` to `(ex, ey)` on a copy of
/// `map`, then leaves the explored copy in `map`.
pub fn astar_search(map: &mut Maze, sx: i32, sy: i32, ex: i32, ey: i32) -> (r: AStarResult)
    requires
        old(map).wf(),
    ensures
        final(map).wf(),
        final(map).same_shape(old(map)),
        r.steps@.len() >= 1,
        r.path@.len() >= 1 && pos(r.path@[0]) == (sx as int, sy as int),
        pos(r.steps@[0]) == (sx as int, sy as int),
        r.steps@[0].color == Color::yellow_spec(),
        r.found == old(map).reachable((sx as int, sy as int), (ex as int, ey as int)),
        r.found ==> old(map).is_route(coords(r.path@), (sx as int, sy as int), (ex as int, ey as int)),
        r.found ==> r.path@.len() == r.path_length + 1,
        r.found ==> simple(coords(r.path@)),
        r.found ==> pos(r.steps@.last()) == (sx as int, sy as int) && r.steps@.last().color == Color::yellow_spec(),
        forall|i: int, j: int| 0 <= i < j < r.steps@.len() && #[trigger] r.steps@[i].color == Color::sky_blue_spec() && #[trigger] r.steps@[j].color == Color::sky_blue_spec()
            ==> pos(r.steps@[i]) != pos(r.steps@[j]),
        forall|c: (int, int)| #[trigger] final(map).cell(c) != old(map).cell(c) ==> c == (sx as int, sy as int)
            || (old(map).passable(c) && old(map).reachable((sx as int, sy as int), c)),
        !r.found ==> r.path_length == 0 && r.path@.len() == 1,
{
    let mut astar = AStar::new(map.duplicate(), sx, sy, ex, ey);
    proof {
        astar.map.lemma_same_routes(old(map));
    }
    let result = astar.search();
    *map = astar.map;
    result
}

} // verus!
