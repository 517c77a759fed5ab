//! Breadth-first search.
use vstd::prelude::*;
use vstd::set_lib::*;
use crate::map::{adjacent, moved, scan_dir, scan_direction, Maze, PATH, START, VISITED};
use crate::point::{pos, Color, Direction, Point};
use crate::tree::simple;
use crate::search::{lemma_key_reachable, lemma_adjacent_dir, cell_index, chain_ok, coords, empty_table, entries, key, lemma_idx, lemma_unreachable, link_ok, mark_trace, parent, trace_path};

verus! {

/// Outcome of a breadth-first search.
#[derive(Debug)]
pub struct BfsResult {
    pub found: bool,
    /// The trace, in replay order.
    pub steps: Vec<Point>,
    /// Number of moves on the path found; 0 when none was found.
    pub path_length: i32,
    /// The path from start to end.
    pub path: Vec<Point>,
}

/// A breadth-first search over its own copy of a maze.
pub struct BFS {
    pub map: Maze,
    pub sx: i32,
    pub sy: i32,
    pub ex: i32,
    pub ey: i32,
}

/// Along a route from the start, while the route is shorter than the level
/// of queue entry `f`, every cell was reached no deeper than its position on
/// the route.
proof fn lemma_level_prefix(
    g0: Maze,
    q: Seq<Point>,
    pre: Seq<Option<Point>>,
    depth: Seq<int>,
    at: Seq<int>,
    s: (int, int),
    e: (int, int),
    f: int,
    p: Seq<(int, int)>,
    i: int,
)
    requires
        chain_ok(g0, pre, s, depth),
        q.len() >= 1,
        pos(q[0]) == s,
        q[0].step == 0,
        0 <= f < q.len(),
        forall|a: int, b: int| 0 <= a <= b < q.len() ==> #[trigger] q[a].step <= #[trigger] q[b].step,
        forall|k: int| 0 < k < q.len() ==> key(g0, pre, pos(#[trigger] q[k])) && depth[g0.idx(pos(q[k]))] == q[k].step,
        forall|c: (int, int)| #[trigger] key(g0, pre, c) ==> 0 < at[g0.idx(c)] < q.len() && pos(q[at[g0.idx(c)]]) == c,
        forall|j: int, k: int| 0 <= j < f && 0 <= k < 4 && #[trigger] g0.passable(moved(pos(q[j]), scan_dir(k))) ==> {
            let c = moved(pos(q[j]), scan_dir(k));
            c == s || (key(g0, pre, c) && depth[g0.idx(c)] <= q[j].step + 1)
        },
        g0.is_route(p, s, e),
        p.len() - 1 < q[f].step,
        0 <= i < p.len(),
    ensures
        p[i] == s || (key(g0, pre, p[i]) && depth[g0.idx(p[i])] <= i),
    decreases i,
{
    if i > 0 {
        lemma_level_prefix(g0, q, pre, depth, at, s, e, f, p, i - 1);
        let a = p[i - 1];
        let j = if a == s { 0 } else { at[g0.idx(a)] };
        assert(pos(q[j]) == a);
        if a != s {
            assert(key(g0, pre, pos(q[j])));
        }
        assert(q[j].step <= i - 1);
        if j >= f {
            assert(q[f].step <= q[j].step);
        }
        assert(g0.passable(p[i]) && adjacent(p[i - 1], p[i]));
        lemma_adjacent_dir(a, p[i]);
        let k = choose|k: int| 0 <= k < 4 && moved(a, #[trigger] scan_dir(k)) == p[i];
        assert(g0.passable(moved(pos(q[j]), scan_dir(k))));
    }
}

/// When the end is taken from the queue at entry `f`, no route from the
/// start is shorter than that entry's level.
proof fn lemma_level_shortest(
    g0: Maze,
    q: Seq<Point>,
    pre: Seq<Option<Point>>,
    depth: Seq<int>,
    at: Seq<int>,
    s: (int, int),
    e: (int, int),
    f: int,
    p: Seq<(int, int)>,
)
    requires
        chain_ok(g0, pre, s, depth),
        q.len() >= 1,
        pos(q[0]) == s,
        q[0].step == 0,
        0 <= f < q.len(),
        pos(q[f]) == e,
        forall|a: int, b: int| 0 <= a <= b < q.len() ==> #[trigger] q[a].step <= #[trigger] q[b].step,
        forall|k: int| 0 < k < q.len() ==> key(g0, pre, pos(#[trigger] q[k])) && depth[g0.idx(pos(q[k]))] == q[k].step,
        forall|c: (int, int)| #[trigger] key(g0, pre, c) ==> 0 < at[g0.idx(c)] < q.len() && pos(q[at[g0.idx(c)]]) == c,
        forall|j: int, k: int| 0 <= j < f && 0 <= k < 4 && #[trigger] g0.passable(moved(pos(q[j]), scan_dir(k))) ==> {
            let c = moved(pos(q[j]), scan_dir(k));
            c == s || (key(g0, pre, c) && depth[g0.idx(c)] <= q[j].step + 1)
        },
        g0.is_route(p, s, e),
    ensures
        p.len() >= q[f].step + 1,
{
    if p.len() - 1 < q[f].step {
        lemma_level_prefix(g0, q, pre, depth, at, s, e, f, p, p.len() - 1);
        if f > 0 {
            assert(key(g0, pre, pos(q[f])));
            if e == s {
                assert(link_ok(g0, pre, s, depth, e));
            }
        } else {
            assert(q[f].step == 0);
        }
    }
}

impl BFS {
    pub fn new(map: Maze, sx: i32, sy: i32, ex: i32, ey: i32) -> (r: BFS)
        ensures
            r == (BFS { map, sx, sy, ex, ey }),
    {
        BFS { map, sx, sy, ex, ey }
    }

    /// Explores the maze breadth-first from the start, marking cells as it
    /// reaches them, until the end is taken from the queue or the queue
    /// runs dry.
    pub fn search(&mut self) -> (r: BfsResult)
        requires
            old(self).map.wf(),
        ensures
            final(self).map.wf(),
            final(self).map.same_shape(&old(self).map),
            final(self).sx == old(self).sx && final(self).sy == old(self).sy,
            final(self).ex == old(self).ex && final(self).ey == old(self).ey,
            r.steps@.len() >= 1,
            r.path@.len() >= 1 && pos(r.path@[0]) == (old(self).sx as int, old(self).sy as int),
            pos(r.steps@[0]) == (old(self).sx as int, old(self).sy as int),
            r.steps@[0].color == Color::yellow_spec(),
            r.found == old(self).map.reachable((old(self).sx as int, old(self).sy as int), (old(self).ex as int, old(self).ey as int)),
            r.found ==> old(self).map.is_route(coords(r.path@), (old(self).sx as int, old(self).sy as int), (old(self).ex as int, old(self).ey as int)),
            r.found ==> r.path@.len() == r.path_length + 1,
            r.found ==> simple(coords(r.path@)),
            r.found ==> pos(r.steps@.last()) == (old(self).sx as int, old(self).sy as int) && r.steps@.last().color == Color::yellow_spec(),
            forall|i: int, j: int| 0 <= i < j < r.steps@.len() && #[trigger] r.steps@[i].color == Color::sky_blue_spec() && #[trigger] r.steps@[j].color == Color::sky_blue_spec()
                ==> pos(r.steps@[i]) != pos(r.steps@[j]) && r.steps@[i].step <= r.steps@[j].step,
            forall|i: int| 0 <= i < r.steps@.len() && #[trigger] r.steps@[i].color == Color::sky_blue_spec()
                ==> old(self).map.passable(pos(r.steps@[i])) && old(self).map.within((old(self).sx as int, old(self).sy as int), pos(r.steps@[i]), r.steps@[i].step as int),
            forall|i: int, p: Seq<(int, int)>| 0 <= i < r.steps@.len() && #[trigger] r.steps@[i].color == Color::sky_blue_spec()
                && #[trigger] old(self).map.is_route(p, (old(self).sx as int, old(self).sy as int), pos(r.steps@[i])) ==> p.len() >= r.steps@[i].step + 1,
            forall|c: (int, int)| #[trigger] final(self).map.cell(c) != old(self).map.cell(c) ==> c == (old(self).sx as int, old(self).sy as int)
                || (old(self).map.passable(c) && old(self).map.reachable((old(self).sx as int, old(self).sy as int), c)),
            !r.found ==> r.path_length == 0 && r.path@.len() == 1,
            r.found ==> forall|p: Seq<(int, int)>| #[trigger] old(self).map.is_route(p, (old(self).sx as int, old(self).sy as int), (old(self).ex as int, old(self).ey as int))
                ==> p.len() >= r.path@.len(),
    {
        let ghost g0 = self.map;
        let ghost s = (self.sx as int, self.sy as int);
        let ghost e = (self.ex as int, self.ey as int);
        let ghost total = g0.size();
        proof {
            g0.lemma_dims();
        }
        let mut steps: Vec<Point> = Vec::new();
        let mut queue: Vec<Point> = Vec::new();
        let mut pre = empty_table(&self.map);
        let ghost mut depth: Seq<int> = Seq::new(total as nat, |i: int| 0);
        let ghost mut at: Seq<int> = Seq::new(total as nat, |i: int| 0);
        let start = Point::with_color(self.sx, self.sy, Color::yellow());
        let end = Point::new(self.ex, self.ey);
        queue.push(start.copy());
        self.map.set_cell(self.sx, self.sy, START);
        steps.push(start.copy());
        let mut found = false;
        let mut final_step: i32 = 0;
        let mut head: usize = 0;
        let ghost mut src: Seq<int> = seq![0int];
        proof {
            assert(entries(pre@) =~= Set::<int>::empty());
            assert forall|c: (int, int)| !#[trigger] key(g0, pre@, c) by {
                if g0.in_bounds_spec(c) {
                    lemma_idx(g0, c, c);
                }
            }
            assert(chain_ok(g0, pre@, s, depth));
        }
        while !found && head < queue.len()
            invariant
                steps@.len() >= 1,
                steps@[0] == start,
                src.len() == steps@.len(),
                queue@[0].color == Color::yellow_spec(),
                forall|k: int| 0 < k < queue@.len() ==> #[trigger] queue@[k].color == Color::sky_blue_spec(),
                forall|k: int| 0 < k < queue@.len() ==> at[g0.idx(pos(#[trigger] queue@[k]))] == k,
                forall|i: int| 0 <= i < steps@.len() && #[trigger] steps@[i].color == Color::sky_blue_spec() ==> 0 < src[i] < head && steps@[i] == queue@[src[i]],
                forall|i: int, j: int| 0 <= i < j < steps@.len() && #[trigger] steps@[i].color == Color::sky_blue_spec() && #[trigger] steps@[j].color == Color::sky_blue_spec() ==> src[i] < src[j],
                self.map.wf(),
                self.map.same_shape(&g0),
                g0.wf(),
                total == g0.size(),
                s == (self.sx as int, self.sy as int),
                e == (self.ex as int, self.ey as int),
                self.sx == start.x && self.sy == start.y,
                self.ex == end.x && self.ey == end.y,
                pos(start) == s,
                pos(end) == e,
                chain_ok(g0, pre@, s, depth),
                at.len() == total,
                queue@.len() >= 1,
                pos(queue@[0]) == s,
                queue@[0].step == 0,
                head <= queue@.len(),
                queue@.len() == 1 + entries(pre@).len(),
                forall|k: int| 0 < k < queue@.len() ==> key(g0, pre@, pos(#[trigger] queue@[k])) && depth[g0.idx(pos(queue@[k]))] == queue@[k].step,
                forall|k: int| 0 <= k < queue@.len() ==> 0 <= #[trigger] queue@[k].step <= k,
                forall|c: (int, int)| #[trigger] key(g0, pre@, c) ==> 0 < at[g0.idx(c)] < queue@.len() && pos(queue@[at[g0.idx(c)]]) == c,
                forall|c: (int, int)| g0.in_bounds_spec(c) ==> #[trigger] self.map.cell(c) == g0.cell(c) || key(g0, pre@, c) || c == s,
                forall|c: (int, int)| #[trigger] key(g0, pre@, c) ==> self.map.cell(c) == VISITED,
                g0.in_bounds_spec(s) ==> self.map.cell(s) == START,
                head == 0 ==> queue@.len() == 1,
                forall|i: int, j: int| 0 <= i <= j < queue@.len() ==> #[trigger] queue@[i].step <= #[trigger] queue@[j].step,
                head >= 1 ==> forall|j: int| 0 <= j < queue@.len() ==> #[trigger] queue@[j].step <= queue@[head - 1].step + 1,
                forall|j: int| 0 <= j < head && (!found || j + 1 < head) ==> pos(#[trigger] queue@[j]) != e,
                forall|j: int, k: int| 0 <= j < head && (!found || j + 1 < head) && 0 <= k < 4 && #[trigger] g0.passable(moved(pos(queue@[j]), scan_dir(k))) ==> {
                    let c = moved(pos(queue@[j]), scan_dir(k));
                    c == s || (key(g0, pre@, c) && depth[g0.idx(c)] <= queue@[j].step + 1)
                },
                found ==> head >= 1 && pos(queue@[head - 1]) == e && final_step == queue@[head - 1].step,
                !found ==> final_step == 0,
            decreases total + 1 - head,
        {
            proof {
                lemma_int_range(0, total);
                lemma_len_subset(entries(pre@), set_int_range(0, total));
            }
            let current = queue[head].copy();
            head = head + 1;
            let ghost s1 = steps@;
            let ghost src1 = src;
            steps.push(current.copy());
            proof {
                src = src.push(head - 1);
                assert forall|i: int| 0 <= i < steps@.len() && #[trigger] steps@[i].color == Color::sky_blue_spec() implies 0 < src[i] < head && steps@[i] == queue@[src[i]] by {
                    if i < s1.len() {
                        assert(steps@[i] == s1[i] && src[i] == src1[i]);
                    } else if head - 1 == 0 {
                        assert(queue@[0].color == Color::yellow_spec());
                    }
                }
                assert forall|i: int, j: int| 0 <= i < j < steps@.len() && #[trigger] steps@[i].color == Color::sky_blue_spec() && #[trigger] steps@[j].color == Color::sky_blue_spec() implies src[i] < src[j] by {
                    assert(steps@[i] == s1[i] && src[i] == src1[i]);
                    if j < s1.len() {
                        assert(steps@[j] == s1[j] && src[j] == src1[j]);
                    }
                }
            }
            if current == end {
                found = true;
                final_step = current.step;
            } else {
                let mut k: usize = 0;
                while k < 4
                    invariant
                        steps@.len() >= 1,
                        steps@[0] == start,
                        src.len() == steps@.len(),
                        queue@[0].color == Color::yellow_spec(),
                        forall|k: int| 0 < k < queue@.len() ==> #[trigger] queue@[k].color == Color::sky_blue_spec(),
                        forall|k: int| 0 < k < queue@.len() ==> at[g0.idx(pos(#[trigger] queue@[k]))] == k,
                        forall|i: int| 0 <= i < steps@.len() && #[trigger] steps@[i].color == Color::sky_blue_spec() ==> 0 < src[i] < head && steps@[i] == queue@[src[i]],
                        forall|i: int, j: int| 0 <= i < j < steps@.len() && #[trigger] steps@[i].color == Color::sky_blue_spec() && #[trigger] steps@[j].color == Color::sky_blue_spec() ==> src[i] < src[j],
                        self.map.wf(),
                        self.map.same_shape(&g0),
                        g0.wf(),
                        total == g0.size(),
                        s == (self.sx as int, self.sy as int),
                        e == (self.ex as int, self.ey as int),
                        self.sx == start.x && self.sy == start.y,
                        self.ex == end.x && self.ey == end.y,
                        chain_ok(g0, pre@, s, depth),
                        at.len() == total,
                        !found,
                        k <= 4,
                        1 <= head <= queue@.len(),
                        current == queue@[head - 1],
                        pos(current) != e,
                        queue@.len() >= 1,
                        pos(queue@[0]) == s,
                        queue@[0].step == 0,
                        queue@.len() == 1 + entries(pre@).len(),
                        forall|i: int| 0 < i < queue@.len() ==> key(g0, pre@, pos(#[trigger] queue@[i])) && depth[g0.idx(pos(queue@[i]))] == queue@[i].step,
                        forall|i: int| 0 <= i < queue@.len() ==> 0 <= #[trigger] queue@[i].step <= i,
                        forall|c: (int, int)| #[trigger] key(g0, pre@, c) ==> 0 < at[g0.idx(c)] < queue@.len() && pos(queue@[at[g0.idx(c)]]) == c,
                        forall|c: (int, int)| g0.in_bounds_spec(c) ==> #[trigger] self.map.cell(c) == g0.cell(c) || key(g0, pre@, c) || c == s,
                        forall|c: (int, int)| #[trigger] key(g0, pre@, c) ==> self.map.cell(c) == VISITED,
                        g0.in_bounds_spec(s) ==> self.map.cell(s) == START,
                        forall|i: int, j: int| 0 <= i <= j < queue@.len() ==> #[trigger] queue@[i].step <= #[trigger] queue@[j].step,
                        forall|j: int| 0 <= j < queue@.len() ==> #[trigger] queue@[j].step <= current.step + 1,
                        forall|j: int| 0 <= j < head ==> pos(#[trigger] queue@[j]) != e,
                        forall|j: int, d: int| 0 <= j < head && 0 <= d < 4 && (j < head - 1 || d < k) && #[trigger] g0.passable(moved(pos(queue@[j]), scan_dir(d))) ==> {
                            let c = moved(pos(queue@[j]), scan_dir(d));
                            c == s || (key(g0, pre@, c) && depth[g0.idx(c)] <= queue@[j].step + 1)
                        },
                    decreases 4 - k,
                {
                    let dir = scan_direction(k);
                    let ghost cp = pos(current);
                    match self.map.neighbor(current.x, current.y, dir) {
                        Some((nx, ny)) => {
                            let ghost c = (nx as int, ny as int);
                            proof {
                                assert(c == moved(cp, scan_dir(k as int)));
                                if g0.passable(c) && c != s && key(g0, pre@, c) {
                                    let j = at[g0.idx(c)];
                                    assert(key(g0, pre@, pos(queue@[j])));
                                    assert(queue@[j].step <= current.step + 1);
                                }
                            }
                            if self.map.get_cell(nx, ny) == PATH {
                                let i = cell_index(&self.map, nx, ny);
                                proof {
                                    assert(!key(g0, pre@, c));
                                    assert(c != s);
                                    assert(g0.passable(c));
                                    assert(!entries(pre@).contains(i as int));
                                    lemma_int_range(0, total);
                                    lemma_len_subset(entries(pre@), set_int_range(0, total).remove(i as int));
                                    assert(current.step + 1 <= queue@.len());
                                    if cp != s {
                                        assert(key(g0, pre@, cp));
                                    } else {
                                        assert(head - 1 == 0) by {
                                            if head - 1 > 0 {
                                                assert(key(g0, pre@, pos(queue@[head - 1])));
                                            }
                                        }
                                    }
                                }
                                let ghost old_pre = pre@;
                                let ghost old_q = queue@;
                                let ghost old_depth = depth;
                                let next = Point::full(nx, ny, current.step + 1, 0, dir, Color::sky_blue());
                                queue.push(next);
                                pre.set(i, Some(Point::full(current.x, current.y, current.step, 0, dir, current.color)));
                                proof {
                                    depth = depth.update(i as int, current.step + 1);
                                    at = at.update(i as int, old_q.len() as int);
                                    assert(entries(pre@) =~= entries(old_pre).insert(i as int));
                                    assert forall|kk: int| 0 < kk < queue@.len() implies at[g0.idx(pos(#[trigger] queue@[kk]))] == kk by {
                                        if kk < old_q.len() {
                                            assert(queue@[kk] == old_q[kk]);
                                            assert(key(g0, old_pre, pos(old_q[kk])));
                                            lemma_idx(g0, pos(old_q[kk]), c);
                                        }
                                    }
                                    assert forall|ii: int| 0 <= ii < steps@.len() && #[trigger] steps@[ii].color == Color::sky_blue_spec() implies 0 < src[ii] < head && steps@[ii] == queue@[src[ii]] by {
                                        assert(queue@[src[ii]] == old_q[src[ii]]);
                                    }
                                    assert forall|x: (int, int)| key(g0, old_pre, x) || x == c <==> #[trigger] key(g0, pre@, x) by {
                                        if g0.in_bounds_spec(x) {
                                            lemma_idx(g0, x, c);
                                        }
                                    }
                                    assert forall|x: (int, int)| #[trigger] key(g0, pre@, x) implies link_ok(g0, pre@, s, depth, x) by {
                                        lemma_idx(g0, x, c);
                                        if x != c {
                                            assert(key(g0, old_pre, x));
                                            assert(link_ok(g0, old_pre, s, old_depth, x));
                                            let p = parent(g0, old_pre, x);
                                            if key(g0, old_pre, p) {
                                                lemma_idx(g0, p, c);
                                            }
                                        } else {
                                            assert(parent(g0, pre@, c) == cp);
                                            assert(adjacent(cp, c)) by {
                                                assert(dir == scan_dir(k as int));
                                                assert(c == moved(cp, dir));
                                            }
                                            if cp == s {
                                                assert(current.step == 0);
                                            } else {
                                                assert(head - 1 > 0);
                                                assert(key(g0, old_pre, cp));
                                                lemma_idx(g0, cp, c);
                                                assert(depth[g0.idx(cp)] == current.step);
                                            }
                                        }
                                    }
                                    assert forall|x: (int, int)| #[trigger] key(g0, pre@, x) implies 0 < at[g0.idx(x)] < queue@.len() && pos(queue@[at[g0.idx(x)]]) == x by {
                                        lemma_idx(g0, x, c);
                                        if x != c {
                                            assert(key(g0, old_pre, x));
                                        }
                                    }
                                    assert forall|ii: int| 0 < ii < queue@.len() implies key(g0, pre@, pos(#[trigger] queue@[ii])) && depth[g0.idx(pos(queue@[ii]))] == queue@[ii].step by {
                                        if ii < old_q.len() {
                                            assert(key(g0, old_pre, pos(old_q[ii])));
                                            lemma_idx(g0, pos(old_q[ii]), c);
                                        }
                                    }
                                    assert forall|j: int, d: int| 0 <= j < head && 0 <= d < 4 && (j < head - 1 || d < k + 1) && #[trigger] g0.passable(moved(pos(queue@[j]), scan_dir(d))) implies {
                                        let c2 = moved(pos(queue@[j]), scan_dir(d));
                                        c2 == s || (key(g0, pre@, c2) && depth[g0.idx(c2)] <= queue@[j].step + 1)
                                    } by {
                                        assert(queue@[j] == old_q[j]);
                                        let c2 = moved(pos(queue@[j]), scan_dir(d));
                                        if j == head - 1 && d == k {
                                            assert(c2 == c);
                                        } else if c2 != s {
                                            assert(key(g0, old_pre, c2));
                                            lemma_idx(g0, c2, c);
                                        }
                                    }
                                }
                                self.map.set_cell(nx, ny, VISITED);
                                proof {
                                    assert forall|x: (int, int)| #[trigger] key(g0, pre@, x) implies self.map.cell(x) == VISITED by {
                                        lemma_idx(g0, x, c);
                                    }
                                }
                            }
                        },
                        None => {},
                    }
                    k = k + 1;
                }
            }
        }
        let ghost looped = steps@;
        let ghost mut s_end: Seq<Point> = looped;
        let ghost mut s_mt: Seq<Point> = looped;
        if found {
            let mut end_point = queue[head - 1].copy();
            end_point.color = Color::yellow();
            steps.push(end_point.copy());
            proof {
                s_end = steps@;
            }
            proof {
                if e != s {
                    assert(head - 1 > 0);
                    assert(key(g0, pre@, pos(queue@[head - 1])));
                }
            }
            mark_trace(&mut self.map, Ghost(g0), &pre, Ghost(depth), &start, end_point, &mut steps, true);
            proof {
                s_mt = steps@;
            }
            steps.push(start.copy());
        } else {
            proof {
                let seen = |c: (int, int)| c == s || key(g0, pre@, c);
                assert forall|c: (int, int), k: int| seen(c) && 0 <= k < 4 && #[trigger] g0.passable(moved(c, scan_dir(k))) implies seen(moved(c, scan_dir(k))) by {
                    if c == s {
                        assert(g0.passable(moved(pos(queue@[0]), scan_dir(k))));
                    } else {
                        let j = at[g0.idx(c)];
                        assert(g0.passable(moved(pos(queue@[j]), scan_dir(k))));
                    }
                }
                if e == s {
                    assert(pos(queue@[0]) != e);
                }
                if key(g0, pre@, e) {
                    assert(pos(queue@[at[g0.idx(e)]]) != e);
                }
                lemma_unreachable(g0, seen, s, e);
            }
        }
        let path = trace_path(&self.map, Ghost(g0), &pre, Ghost(depth), &start, &end);
        proof {
            if found {
                if e != s {
                    assert(head - 1 > 0);
                    assert(key(g0, pre@, pos(queue@[head - 1])));
                }
                assert forall|p: Seq<(int, int)>| #[trigger] g0.is_route(p, s, e) implies p.len() >= path@.len() by {
                    lemma_level_shortest(g0, queue@, pre@, depth, at, s, e, head - 1, p);
                }
            }
        }
        proof {
            assert forall|c: (int, int)| #[trigger] self.map.cell(c) != g0.cell(c) implies c == s || (g0.passable(c) && g0.reachable(s, c)) by {
                if g0.in_bounds_spec(c) && c != s {
                    lemma_key_reachable(g0, pre@, s, depth, c);
                }
            }
        }
        proof {
            assert forall|i: int| 0 <= i < steps@.len() && #[trigger] steps@[i].color == Color::sky_blue_spec() implies i < looped.len() && steps@[i] == looped[i] by {
                if found {
                    assert(s_end == looped.push(s_end.last()));
                    assert(s_mt.subrange(0, s_end.len() as int) == s_end);
                    assert(steps@ == s_mt.push(steps@.last()));
                    if i >= looped.len() {
                        if i == looped.len() {
                            assert(s_mt.subrange(0, s_end.len() as int)[i] == s_end[i]);
                        } else if i < s_mt.len() {
                            assert(s_mt[i].color == Color::light_red_spec());
                        }
                    }
                    assert(s_mt.subrange(0, s_end.len() as int)[i] == s_end[i]);
                }
            }
            assert forall|i: int, j: int| 0 <= i < j < steps@.len() && #[trigger] steps@[i].color == Color::sky_blue_spec() && #[trigger] steps@[j].color == Color::sky_blue_spec()
                implies pos(steps@[i]) != pos(steps@[j]) && steps@[i].step <= steps@[j].step by {
                assert(steps@[i] == looped[i] && steps@[j] == looped[j]);
                assert(src[i] < src[j]);
                assert(at[g0.idx(pos(queue@[src[i]]))] == src[i]);
                assert(at[g0.idx(pos(queue@[src[j]]))] == src[j]);
            }
            assert forall|i: int| 0 <= i < steps@.len() && #[trigger] steps@[i].color == Color::sky_blue_spec()
                implies g0.passable(pos(steps@[i])) && g0.within(s, pos(steps@[i]), steps@[i].step as int) by {
                assert(steps@[i] == looped[i]);
                let f = src[i];
                assert(key(g0, pre@, pos(queue@[f])));
                lemma_key_reachable(g0, pre@, s, depth, pos(queue@[f]));
            }
            assert forall|i: int, p: Seq<(int, int)>| 0 <= i < steps@.len() && #[trigger] steps@[i].color == Color::sky_blue_spec()
                && #[trigger] g0.is_route(p, s, pos(steps@[i])) implies p.len() >= steps@[i].step + 1 by {
                assert(steps@[i] == looped[i]);
                let f = src[i];
                lemma_level_shortest(g0, queue@, pre@, depth, at, s, pos(queue@[f]), f, p);
            }
        }
        BfsResult { found, steps, path_length: final_step, path }
    }

    /// The maze as the search left it.
    pub fn map(&self) -> (r: &Maze)
        ensures
            *r == self.map,
    {
        &self.map
    }

    /// The maze, for changing it in place.
    pub fn map_mut(&mut self) -> (r: &mut Maze)
        ensures
            *r == old(self).map,
            *final(self) == (BFS { map: *final(r), ..*old(self) }),
    {
        &mut self.map
    }
}

/// Runs a breadth-first search from `(sx, sy)` to `(ex, ey)` on a copy of
/// `map`, then leaves the explored copy in `map`.
pub fn bfs_search(map: &mut Maze, sx: i32, sy: i32, ex: i32, ey: i32) -> (r: BfsResult)
    requires
        old(map).wf(),
    ensures
        final(map).wf(),
        final(map).same_shape(old(map)),
        r.steps@.len() >= 1,
        r.path@.len() >= 1 && pos(r.path@[0]) == (sx as int, sy as int),
        pos(r.steps@[0]) == (sx as int, sy as int),
        r.steps@[0].color == Color::yellow_spec(),
        r.found == old(map).reachable((sx as int, sy as int), (ex as int, ey as int)),
        r.found ==> old(map).is_route(coords(r.path@), (sx as int, sy as int), (ex as int, ey as int)),
        r.found ==> r.path@.len() == r.path_length + 1,
        r.found ==> simple(coords(r.path@)),
        r.found ==> pos(r.steps@.last()) == (sx as int, sy as int) && r.steps@.last().color == Color::yellow_spec(),
        forall|i: int, j: int| 0 <= i < j < r.steps@.len() && #[trigger] r.steps@[i].color == Color::sky_blue_spec() && #[trigger] r.steps@[j].color == Color::sky_blue_spec()
            ==> pos(r.steps@[i]) != pos(r.steps@[j]) && r.steps@[i].step <= r.steps@[j].step,
        forall|i: int| 0 <= i < r.steps@.len() && #[trigger] r.steps@[i].color == Color::sky_blue_spec()
            ==> old(map).passable(pos(r.steps@[i])) && old(map).within((sx as int, sy as int), pos(r.steps@[i]), r.steps@[i].step as int),
        forall|i: int, p: Seq<(int, int)>| 0 <= i < r.steps@.len() && #[trigger] r.steps@[i].color == Color::sky_blue_spec()
            && #[trigger] old(map).is_route(p, (sx as int, sy as int), pos(r.steps@[i])) ==> p.len() >= r.steps@[i].step + 1,
        forall|c: (int, int)| #[trigger] final(map).cell(c) != old(map).cell(c) ==> c == (sx as int, sy as int)
            || (old(map).passable(c) && old(map).reachable((sx as int, sy as int), c)),
        !r.found ==> r.path_length == 0 && r.path@.len() == 1,
        r.found ==> forall|p: Seq<(int, int)>| #[trigger] old(map).is_route(p, (sx as int, sy as int), (ex as int, ey as int)) ==> p.len() >= r.path@.len(),
{
    let mut bfs = BFS::new(map.duplicate(), sx, sy, ex, ey);
    proof {
        bfs.map.lemma_same_routes(old(map));
    }
    let ghost copy = bfs.map;
    let result = bfs.search();
    proof {
        assert forall|i: int| 0 <= i < result.steps@.len() && #[trigger] result.steps@[i].color == Color::sky_blue_spec()
            implies old(map).passable(pos(result.steps@[i])) && old(map).within((sx as int, sy as int), pos(result.steps@[i]), result.steps@[i].step as int) by {
            let c = pos(result.steps@[i]);
            assert(copy.cell(c) == old(map).cell(c));
            let p = choose|p: Seq<(int, int)>| copy.is_route(p, (sx as int, sy as int), c) && p.len() <= result.steps@[i].step + 1;
            assert(old(map).is_route(p, (sx as int, sy as int), c));
        }
    }
    *map = bfs.map;
    result
}

} // verus!
