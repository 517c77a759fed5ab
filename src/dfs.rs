//! Depth-first search.
use vstd::prelude::*;
use vstd::set_lib::*;
use crate::map::{adjacent, moved, scan_dir, scan_direction, Maze, BACKTRACK, PATH, START, VISITED};
use crate::point::{pos, Color, Direction, Point};
use crate::search::{coords, lemma_idx, lemma_unreachable, cell_index};

verus! {

/// Outcome of a depth-first search.
#[derive(Debug)]
pub struct DfsResult {
    pub found: bool,
    /// The trace, in replay order.
    pub steps: Vec<Point>,
    /// Depth at which the end was reached (not a shortest length); 0 when
    /// it was not reached.
    pub path_length: i32,
}

/// Every backtrack entry (light red) of a trace repeats the cell of the
/// entry before it, one step lower and with no direction.
#[verifier::opaque]
pub open spec fn backtracks_ok(steps: Seq<Point>) -> bool {
    forall|i: int| 0 <= i < steps.len() && #[trigger] steps[i].color == Color::light_red_spec() ==> i > 0
        && pos(steps[i]) == pos(steps[i - 1]) && steps[i].step == steps[i - 1].step - 1 && steps[i].direction == Direction::Stay
}

#[verifier::opaque]
spec fn none_backtracked(stack: Seq<Point>) -> bool {
    forall|i: int| 0 <= i < stack.len() ==> #[trigger] stack[i].color != Color::light_red_spec()
}

proof fn lemma_trace_push(s: Seq<Point>, x: Point)
    requires
        backtracks_ok(s),
        x.color != Color::light_red_spec() || (s.len() >= 1 && pos(x) == pos(s.last()) && x.step == s.last().step - 1
            && x.direction == Direction::Stay),
    ensures
        backtracks_ok(s.push(x)),
{
    reveal(backtracks_ok);
    let t = s.push(x);
    assert forall|i: int| 0 <= i < t.len() && #[trigger] t[i].color == Color::light_red_spec() implies i > 0
        && pos(t[i]) == pos(t[i - 1]) && t[i].step == t[i - 1].step - 1 && t[i].direction == Direction::Stay by {
        if i < s.len() {
            assert(t[i] == s[i] && t[i - 1] == s[i - 1]);
        }
    }
}

proof fn lemma_stack_push(st: Seq<Point>, x: Point)
    requires
        none_backtracked(st),
        x.color != Color::light_red_spec(),
    ensures
        none_backtracked(st.push(x)),
{
    reveal(none_backtracked);
    assert forall|i: int| 0 <= i < st.push(x).len() implies #[trigger] st.push(x)[i].color != Color::light_red_spec() by {
        if i < st.len() {
            assert(st.push(x)[i] == st[i]);
        }
    }
}

proof fn lemma_stack_facts(st: Seq<Point>)
    requires
        none_backtracked(st),
    ensures
        st.len() > 0 ==> st.last().color != Color::light_red_spec() && none_backtracked(st.drop_last()),
{
    reveal(none_backtracked);
    if st.len() > 0 {
        assert(st.last() == st[st.len() - 1]);
        assert forall|i: int| 0 <= i < st.drop_last().len() implies #[trigger] st.drop_last()[i].color != Color::light_red_spec() by {
            assert(st.drop_last()[i] == st[i]);
        }
    }
}

/// `x` is an entry of the trace.
pub open spec fn recorded(steps: Seq<Point>, x: Point) -> bool {
    exists|j: int| 0 <= j < steps.len() && #[trigger] steps[j] == x
}

/// Entries `1..upto` of the stack have each been recorded in the trace.
#[verifier::opaque]
spec fn shown(stack: Seq<Point>, steps: Seq<Point>, upto: int) -> bool {
    forall|i: int| 0 < i < upto && i < stack.len() ==> recorded(steps, #[trigger] stack[i])
}

/// Backtrack entries lie on closed cells, the stack holds no closed cell,
/// and no cell twice.
#[verifier::opaque]
spec fn off_trail(stack: Seq<Point>, steps: Seq<Point>, closed: Set<(int, int)>) -> bool {
    &&& forall|j: int| 0 <= j < steps.len() && #[trigger] steps[j].color == Color::light_red_spec() ==> closed.contains(pos(steps[j]))
    &&& forall|i: int| 0 <= i < stack.len() ==> !closed.contains(pos(#[trigger] stack[i]))
    &&& forall|i: int, k: int| 0 <= i < k < stack.len() ==> pos(#[trigger] stack[i]) != pos(#[trigger] stack[k])
}

/// Every stack entry above the start is a frontier (sky blue) entry.
#[verifier::opaque]
spec fn sky_above(stack: Seq<Point>) -> bool {
    forall|i: int| 0 < i < stack.len() ==> #[trigger] stack[i].color == Color::sky_blue_spec()
}

/// `p` is a route from `s` to `e` whose cells after the start each appear
/// in the trace as a frontier entry of step `i`, and no backtrack entry of
/// the trace lies on it.
pub open spec fn shows_route(g: Maze, steps: Seq<Point>, s: (int, int), e: (int, int), p: Seq<Point>) -> bool {
    &&& g.is_route(coords(p), s, e)
    &&& forall|i: int| 0 < i < p.len() ==> (#[trigger] p[i]).color == Color::sky_blue_spec() && p[i].step == i && recorded(steps, p[i])
    &&& forall|j: int, i: int| 0 <= j < steps.len() && 0 <= i < p.len() && #[trigger] steps[j].color == Color::light_red_spec() ==> pos(steps[j]) != pos(#[trigger] p[i])
}

proof fn lemma_recorded(sp: Seq<Point>, x: Point, y: Point)
    requires
        recorded(sp, y),
    ensures
        recorded(sp.push(x), y),
{
    let j = choose|j: int| 0 <= j < sp.len() && #[trigger] sp[j] == y;
    assert(sp.push(x)[j] == sp[j]);
}

proof fn lemma_shown(st: Seq<Point>, sp: Seq<Point>, u: int, x: Point)
    requires
        shown(st, sp, u),
    ensures
        shown(st, sp.push(x), u),
        forall|v: int| v <= u ==> #[trigger] shown(st, sp, v),
        st.len() >= 1 && u == st.len() - 1 && x == st.last() ==> shown(st, sp.push(x), st.len() as int),
        u >= st.len() ==> forall|y: Point| #[trigger] shown(st.push(y), sp, st.len() as int),
        st.len() >= 1 && u >= st.len() ==> shown(st.drop_last(), sp, st.len() - 1),
{
    reveal(shown);
    assert forall|i: int| 0 < i < u && i < st.len() implies recorded(sp.push(x), #[trigger] st[i]) by {
        lemma_recorded(sp, x, st[i]);
    }
    if st.len() >= 1 && u == st.len() - 1 && x == st.last() {
        assert forall|i: int| 0 < i < st.len() && i < st.len() implies recorded(sp.push(x), #[trigger] st[i]) by {
            if i == st.len() - 1 {
                assert(sp.push(x)[sp.len() as int] == st[i]);
            } else {
                lemma_recorded(sp, x, st[i]);
            }
        }
    }
    if u >= st.len() {
        assert forall|y: Point| #[trigger] shown(st.push(y), sp, st.len() as int) by {
            assert forall|i: int| 0 < i < st.len() && i < st.push(y).len() implies recorded(sp, #[trigger] st.push(y)[i]) by {
                assert(st.push(y)[i] == st[i]);
            }
        }
    }
    if st.len() >= 1 && u >= st.len() {
        assert forall|i: int| 0 < i < st.len() - 1 && i < st.drop_last().len() implies recorded(sp, #[trigger] st.drop_last()[i]) by {
            assert(st.drop_last()[i] == st[i]);
        }
    }
}

proof fn lemma_off_trail_step(st: Seq<Point>, sp: Seq<Point>, cl: Set<(int, int)>, x: Point)
    requires
        off_trail(st, sp, cl),
        x.color != Color::light_red_spec(),
    ensures
        off_trail(st, sp.push(x), cl),
{
    reveal(off_trail);
    assert forall|j: int| 0 <= j < sp.push(x).len() && #[trigger] sp.push(x)[j].color == Color::light_red_spec() implies cl.contains(pos(sp.push(x)[j])) by {
        assert(sp.push(x)[j] == sp[j]);
    }
}

proof fn lemma_off_trail_push(st: Seq<Point>, sp: Seq<Point>, cl: Set<(int, int)>, x: Point)
    requires
        off_trail(st, sp, cl),
        !cl.contains(pos(x)),
        forall|i: int| 0 <= i < st.len() ==> pos(#[trigger] st[i]) != pos(x),
    ensures
        off_trail(st.push(x), sp, cl),
{
    reveal(off_trail);
    let t = st.push(x);
    assert forall|i: int| 0 <= i < t.len() implies !cl.contains(pos(#[trigger] t[i])) by {
        if i < st.len() {
            assert(t[i] == st[i]);
        }
    }
    assert forall|i: int, k: int| 0 <= i < k < t.len() implies pos(#[trigger] t[i]) != pos(#[trigger] t[k]) by {
        assert(t[i] == st[i]);
        if k < st.len() {
            assert(t[k] == st[k]);
        }
    }
}

proof fn lemma_off_trail_pop(st: Seq<Point>, sp: Seq<Point>, cl: Set<(int, int)>, x: Point)
    requires
        off_trail(st, sp, cl),
        st.len() >= 1,
        pos(x) == pos(st.last()),
    ensures
        off_trail(st.drop_last(), sp.push(x), cl.insert(pos(x))),
{
    reveal(off_trail);
    let t = st.drop_last();
    let q = sp.push(x);
    assert forall|j: int| 0 <= j < q.len() && #[trigger] q[j].color == Color::light_red_spec() implies cl.insert(pos(x)).contains(pos(q[j])) by {
        if j < sp.len() {
            assert(q[j] == sp[j]);
        }
    }
    assert forall|i: int| 0 <= i < t.len() implies !cl.insert(pos(x)).contains(pos(#[trigger] t[i])) by {
        assert(t[i] == st[i]);
        assert(pos(st[i]) != pos(st[st.len() - 1]));
    }
    assert forall|i: int, k: int| 0 <= i < k < t.len() implies pos(#[trigger] t[i]) != pos(#[trigger] t[k]) by {
        assert(t[i] == st[i] && t[k] == st[k]);
    }
}

proof fn lemma_sky(st: Seq<Point>, x: Point)
    requires
        sky_above(st),
    ensures
        x.color == Color::sky_blue_spec() ==> sky_above(st.push(x)),
        st.len() >= 1 ==> sky_above(st.drop_last()),
{
    reveal(sky_above);
    if x.color == Color::sky_blue_spec() {
        assert forall|i: int| 0 < i < st.push(x).len() implies #[trigger] st.push(x)[i].color == Color::sky_blue_spec() by {
            if i < st.len() {
                assert(st.push(x)[i] == st[i]);
            }
        }
    }
    if st.len() >= 1 {
        assert forall|i: int| 0 < i < st.drop_last().len() implies #[trigger] st.drop_last()[i].color == Color::sky_blue_spec() by {
            assert(st.drop_last()[i] == st[i]);
        }
    }
}

/// A depth-first search over its own copy of a maze.
pub struct DFS {
    pub map: Maze,
    pub sx: i32,
    pub sy: i32,
    pub ex: i32,
    pub ey: i32,
}

impl DFS {
    pub fn new(map: Maze, sx: i32, sy: i32, ex: i32, ey: i32) -> (r: DFS)
        ensures
            r == (DFS { map, sx, sy, ex, ey }),
    {
        DFS { map, sx, sy, ex, ey }
    }

    /// Explores depth-first: the stack always holds the route from the
    /// start to the cell being explored. Each round either steps into the
    /// first open neighbour (down, right, up, left) or backtracks.
    pub fn search(&mut self) -> (r: DfsResult)
        requires
            old(self).map.wf(),
        ensures
            final(self).map.wf(),
            final(self).map.same_shape(&old(self).map),
            final(self).sx == old(self).sx && final(self).sy == old(self).sy,
            final(self).ex == old(self).ex && final(self).ey == old(self).ey,
            r.steps@.len() >= 1,
            pos(r.steps@[0]) == (old(self).sx as int, old(self).sy as int),
            r.steps@[0].color == Color::yellow_spec(),
            r.found == old(self).map.reachable((old(self).sx as int, old(self).sy as int), (old(self).ex as int, old(self).ey as int)),
            r.found ==> exists|p: Seq<(int, int)>| #[trigger] old(self).map.is_route(p, (old(self).sx as int, old(self).sy as int), (old(self).ex as int, old(self).ey as int))
                && p.len() == r.path_length + 1,
            !r.found ==> r.path_length == 0,
            backtracks_ok(r.steps@),
            r.found ==> exists|p: Seq<Point>| #[trigger] shows_route(old(self).map, r.steps@, (old(self).sx as int, old(self).sy as int), (old(self).ex as int, old(self).ey as int), p) && p.len() == r.path_length + 1,
            r.found ==> pos(r.steps@.last()) == (old(self).ex as int, old(self).ey as int) && r.steps@.last().color == Color::yellow_spec() && r.steps@.last().direction == Direction::Stay
                && r.steps@.last().step == r.path_length,
            forall|c: (int, int)| #[trigger] final(self).map.cell(c) != old(self).map.cell(c) ==> c == (old(self).sx as int, old(self).sy as int)
                || (old(self).map.passable(c) && old(self).map.reachable((old(self).sx as int, old(self).sy as int), c)),
    {
        let ghost g0 = self.map;
        let ghost s = (self.sx as int, self.sy as int);
        let ghost e = (self.ex as int, self.ey as int);
        let ghost total = g0.size();
        proof {
            g0.lemma_dims();
        }
        let mut steps: Vec<Point> = Vec::new();
        let mut stack: Vec<Point> = Vec::new();
        let start = Point::with_color(self.sx, self.sy, Color::yellow());
        let end = Point::new(self.ex, self.ey);
        stack.push(start.copy());
        self.map.set_cell(self.sx, self.sy, START);
        steps.push(start.copy());
        let mut found = false;
        let mut final_step: i32 = 0;
        let ghost mut seen: Set<int> = Set::empty();
        let ghost mut closed: Set<(int, int)> = Set::empty();
        assert(coords(stack@)[0] == s);
        assert(backtracks_ok(steps@)) by {
            reveal(backtracks_ok);
        }
        assert(none_backtracked(stack@)) by {
            reveal(none_backtracked);
        }
        assert(shown(stack@, steps@, 0)) by {
            reveal(shown);
        }
        assert(off_trail(stack@, steps@, closed)) by {
            reveal(off_trail);
        }
        assert(sky_above(stack@)) by {
            reveal(sky_above);
        }
        while !found && stack.len() > 0
            invariant
                steps@.len() >= 1,
                steps@[0] == start,
                backtracks_ok(steps@),
                none_backtracked(stack@),
                shown(stack@, steps@, stack@.len() - 1),
                found ==> shown(stack@, steps@, stack@.len() as int),
                off_trail(stack@, steps@, closed),
                sky_above(stack@),
                forall|c: (int, int)| #[trigger] closed.contains(c) ==> c == s || (g0.in_bounds_spec(c) && seen.contains(g0.idx(c))),
                found ==> pos(steps@.last()) == e && steps@.last().color == Color::yellow_spec() && steps@.last().direction == Direction::Stay
                    && steps@.last().step == final_step,
                self.map.wf(),
                self.map.same_shape(&g0),
                g0.wf(),
                total == g0.size(),
                s == (self.sx as int, self.sy as int),
                e == (self.ex as int, self.ey as int),
                pos(start) == s,
                pos(end) == e,
                seen.subset_of(set_int_range(0, total)),
                stack@.len() <= 1 + seen.len(),
                stack@.len() > 0 ==> pos(stack@[0]) == s,
                forall|i: int| 0 <= i < stack@.len() ==> #[trigger] stack@[i].step == i,
                forall|i: int| 0 < i < stack@.len() ==> g0.passable(pos(#[trigger] stack@[i])) && adjacent(pos(stack@[i - 1]), pos(stack@[i])) && seen.contains(g0.idx(pos(stack@[i]))),
                forall|c: (int, int)| g0.in_bounds_spec(c) ==> #[trigger] self.map.cell(c) == g0.cell(c) || seen.contains(g0.idx(c)) || c == s,
                forall|c: (int, int)| g0.in_bounds_spec(c) && seen.contains(g0.idx(c)) ==> #[trigger] self.map.cell(c) != PATH,
                forall|c: (int, int)| g0.in_bounds_spec(c) && #[trigger] seen.contains(g0.idx(c)) ==> g0.passable(c) && g0.reachable(s, c),
                g0.in_bounds_spec(s) ==> self.map.cell(s) != PATH,
                forall|c: (int, int)| (c == s || (g0.in_bounds_spec(c) && seen.contains(g0.idx(c)))) ==> #[trigger] closed.contains(c) || coords(stack@).contains(c),
                forall|c: (int, int), k: int| closed.contains(c) && 0 <= k < 4 && #[trigger] g0.passable(moved(c, scan_dir(k))) ==> {
                    let d = moved(c, scan_dir(k));
                    d == s || seen.contains(g0.idx(d))
                },
                !found ==> !closed.contains(e),
                found ==> stack@.len() > 0 && pos(stack@.last()) == e && final_step == stack@.last().step,
                !found ==> final_step == 0,
            decreases 2 * (total - seen.len()) + stack@.len() + (if found { 0int } else { 1int }),
        {
            proof {
                lemma_int_range(0, total);
                lemma_len_subset(seen, set_int_range(0, total));
            }
            let top = stack.len() - 1;
            let current = stack[top].copy();
            let ghost s1 = steps@;
            proof {
                lemma_stack_facts(stack@);
                assert(stack@.last() == stack@[top as int]);
                lemma_trace_push(s1, current);
                lemma_shown(stack@, s1, stack@.len() - 1, current);
                lemma_off_trail_step(stack@, s1, closed, current);
            }
            steps.push(current.copy());
            if current == end {
                let mut end_point = current.copy();
                end_point.color = Color::yellow();
                end_point.direction = Direction::Stay;
                proof {
                    lemma_trace_push(steps@, end_point);
                    lemma_shown(stack@, steps@, stack@.len() as int, end_point);
                    lemma_off_trail_step(stack@, steps@, closed, end_point);
                }
                steps.push(end_point);
                proof {
                    lemma_shown(stack@, steps@, stack@.len() as int, end_point);
                }
                found = true;
                final_step = current.step;
            } else {
                let mut found_next = false;
                let mut k: usize = 0;
                let ghost old_stack = stack@;
                let ghost old_seen = seen;
                while !found_next && k < 4
                    invariant
                        steps@.len() >= 1,
                        steps@[0] == start,
                        backtracks_ok(steps@),
                        none_backtracked(stack@),
                        shown(stack@, steps@, stack@.len() - 1),
                        !found_next ==> shown(stack@, steps@, stack@.len() as int),
                        off_trail(stack@, steps@, closed),
                        sky_above(stack@),
                        forall|c: (int, int)| #[trigger] closed.contains(c) ==> c == s || (g0.in_bounds_spec(c) && seen.contains(g0.idx(c))),
                        steps@.last() == current,
                        self.map.wf(),
                        self.map.same_shape(&g0),
                        g0.wf(),
                        total == g0.size(),
                        s == (self.sx as int, self.sy as int),
                        e == (self.ex as int, self.ey as int),
                        k <= 4,
                        top + 1 == old_stack.len(),
                        current == old_stack[top as int],
                        seen.subset_of(set_int_range(0, total)),
                        old_stack.len() <= 1 + old_seen.len(),
                        old_stack.len() > 0 ==> pos(old_stack[0]) == s,
                        forall|i: int| 0 <= i < old_stack.len() ==> #[trigger] old_stack[i].step == i,
                        forall|i: int| 0 < i < old_stack.len() ==> g0.passable(pos(#[trigger] old_stack[i])) && adjacent(pos(old_stack[i - 1]), pos(old_stack[i])) && old_seen.contains(g0.idx(pos(old_stack[i]))),
                        !found_next ==> stack@ == old_stack && seen == old_seen,
                        found_next ==> stack@.len() == old_stack.len() + 1 && stack@.subrange(0, old_stack.len() as int) == old_stack
                            && stack@.last().step == old_stack.len()
                            && g0.passable(pos(stack@.last())) && adjacent(pos(current), pos(stack@.last()))
                            && !old_seen.contains(g0.idx(pos(stack@.last()))) && pos(stack@.last()) != s
                            && seen == old_seen.insert(g0.idx(pos(stack@.last()))),
                        forall|c: (int, int)| g0.in_bounds_spec(c) ==> #[trigger] self.map.cell(c) == g0.cell(c) || seen.contains(g0.idx(c)) || c == s,
                        forall|c: (int, int)| g0.in_bounds_spec(c) && seen.contains(g0.idx(c)) ==> #[trigger] self.map.cell(c) != PATH,
                        forall|c: (int, int)| g0.in_bounds_spec(c) && #[trigger] seen.contains(g0.idx(c)) ==> g0.passable(c) && g0.reachable(s, c),
                        g0.in_bounds_spec(s) ==> self.map.cell(s) != PATH,
                        !found_next ==> forall|d: int| 0 <= d < k && #[trigger] g0.passable(moved(pos(current), scan_dir(d))) ==> {
                            let c = moved(pos(current), scan_dir(d));
                            c == s || seen.contains(g0.idx(c))
                        },
                    decreases 4 - k,
                {
                    let dir = scan_direction(k);
                    match self.map.neighbor(current.x, current.y, dir) {
                        Some((nx, ny)) => {
                            let ghost c = (nx as int, ny as int);
                            if self.map.get_cell(nx, ny) == PATH {
                                let i = cell_index(&self.map, nx, ny);
                                proof {
                                    assert(!seen.contains(i as int));
                                    assert(c != s);
                                    assert(g0.passable(c));
                                    lemma_int_range(0, total);
                                    lemma_len_subset(seen, set_int_range(0, total).remove(i as int));
                                    assert(adjacent(pos(current), c)) by {
                                        assert(dir == scan_dir(k as int));
                                    }
                                }
                                proof {
                                    let p = coords(old_stack);
                                    assert forall|j: int| 0 < j < p.len() implies #[trigger] g0.passable(p[j]) && adjacent(p[j - 1], p[j]) by {
                                        assert(g0.passable(pos(old_stack[j])) && adjacent(pos(old_stack[j - 1]), pos(old_stack[j])));
                                    }
                                    assert(g0.is_route(p, s, pos(current)));
                                    g0.lemma_route_push(p, s, pos(current), c);
                                }
                                let next = Point::full(nx, ny, current.step + 1, 0, dir, Color::sky_blue());
                                proof {
                                    lemma_stack_push(stack@, next);
                                    lemma_shown(stack@, steps@, stack@.len() as int, next);
                                    lemma_sky(stack@, next);
                                    assert(!closed.contains(c));
                                    assert forall|ii: int| 0 <= ii < stack@.len() implies pos(#[trigger] stack@[ii]) != pos(next) by {
                                        if ii > 0 {
                                            assert(seen.contains(g0.idx(pos(stack@[ii]))));
                                            lemma_idx(g0, pos(stack@[ii]), c);
                                        }
                                    }
                                    lemma_off_trail_push(stack@, steps@, closed, next);
                                }
                                stack.push(next);
                                self.map.set_cell(nx, ny, VISITED);
                                proof {
                                    seen = seen.insert(i as int);
                                    assert(stack@.subrange(0, old_stack.len() as int) =~= old_stack);
                                    assert forall|x: (int, int)| g0.in_bounds_spec(x) && seen.contains(g0.idx(x)) implies #[trigger] self.map.cell(x) != PATH by {
                                        lemma_idx(g0, x, c);
                                    }
                                    assert forall|x: (int, int)| g0.in_bounds_spec(x) implies #[trigger] self.map.cell(x) == g0.cell(x) || seen.contains(g0.idx(x)) || x == s by {
                                        lemma_idx(g0, x, c);
                                    }
                                    assert forall|x: (int, int)| g0.in_bounds_spec(x) && #[trigger] seen.contains(g0.idx(x)) implies g0.passable(x) && g0.reachable(s, x) by {
                                        lemma_idx(g0, x, c);
                                    }
                                }
                                found_next = true;
                            }
                        },
                        None => {},
                    }
                    k = k + 1;
                }
                if !found_next {
                    proof {
                        lemma_shown(stack@, steps@, stack@.len() as int, current);
                        lemma_sky(stack@, current);
                        lemma_stack_facts(stack@);
                    }
                    stack.pop();
                    let mut backtrack = current.copy();
                    backtrack.step = current.step - 1;
                    backtrack.direction = Direction::Stay;
                    backtrack.color = Color::light_red();
                    self.map.set_cell(current.x, current.y, BACKTRACK);
                    proof {
                        lemma_trace_push(steps@, backtrack);
                        lemma_shown(stack@, steps@, stack@.len() as int, backtrack);
                        lemma_shown(stack@, steps@.push(backtrack), stack@.len() as int, backtrack);
                        lemma_off_trail_pop(old_stack, steps@, closed, backtrack);
                    }
                    steps.push(backtrack);
                    proof {
                        let cp = pos(current);
                        let ghost prev_closed = closed;
                        closed = closed.insert(cp);
                        assert(coords(stack@) =~= coords(old_stack).drop_last());
                        assert forall|c: (int, int)| (c == s || (g0.in_bounds_spec(c) && seen.contains(g0.idx(c)))) implies #[trigger] closed.contains(c) || coords(stack@).contains(c) by {
                            if !prev_closed.contains(c) {
                                assert(coords(old_stack).contains(c));
                                let j = choose|j: int| 0 <= j < coords(old_stack).len() && coords(old_stack)[j] == c;
                                if j < top {
                                    assert(coords(stack@)[j] == c);
                                }
                            }
                        }
                        assert forall|x: (int, int)| g0.in_bounds_spec(x) implies #[trigger] self.map.cell(x) == g0.cell(x) || seen.contains(g0.idx(x)) || x == s by {
                            if x == cp && top > 0 {
                                assert(g0.passable(pos(old_stack[top as int])));
                            }
                        }
                        assert(cp == s || (g0.in_bounds_spec(cp) && seen.contains(g0.idx(cp)))) by {
                            if top > 0 {
                                assert(g0.passable(pos(old_stack[top as int])));
                            }
                        }
                        assert forall|x: (int, int)| g0.in_bounds_spec(x) && seen.contains(g0.idx(x)) implies #[trigger] self.map.cell(x) != PATH by {
                        }
                    }
                } else {
                    proof {
                        let c = pos(stack@.last());
                        assert(coords(stack@) =~= coords(old_stack).push(c));
                        assert forall|x: (int, int)| (x == s || (g0.in_bounds_spec(x) && seen.contains(g0.idx(x)))) implies #[trigger] closed.contains(x) || coords(stack@).contains(x) by {
                            if x == c {
                                assert(coords(stack@)[stack@.len() - 1] == c);
                            } else if !closed.contains(x) {
                                if x != s {
                                    lemma_idx(g0, x, c);
                                }
                                assert(coords(old_stack).contains(x));
                                let j = choose|j: int| 0 <= j < coords(old_stack).len() && coords(old_stack)[j] == x;
                                assert(coords(stack@)[j] == x);
                            }
                        }
                        assert forall|i: int| 0 < i < stack@.len() implies g0.passable(pos(#[trigger] stack@[i])) && adjacent(pos(stack@[i - 1]), pos(stack@[i])) && seen.contains(g0.idx(pos(stack@[i]))) by {
                            if i < old_stack.len() {
                                assert(stack@[i] == old_stack[i]);
                                assert(stack@[i - 1] == old_stack[i - 1]);
                            }
                        }
                        assert forall|i: int| 0 <= i < stack@.len() implies #[trigger] stack@[i].step == i by {
                            if i < old_stack.len() {
                                assert(stack@[i] == old_stack[i]);
                            }
                        }
                    }
                }
            }
        }
        proof {
            if found {
                reveal(shown);
                reveal(off_trail);
                reveal(sky_above);
                let p = coords(stack@);
                assert(g0.is_route(p, s, e)) by {
                    assert forall|i: int| 0 < i < p.len() implies #[trigger] g0.passable(p[i]) && adjacent(p[i - 1], p[i]) by {
                        assert(g0.passable(pos(stack@[i])));
                    }
                }
                assert(p.len() == final_step + 1);
                assert(shows_route(g0, steps@, s, e, stack@));
            } else {
                let inside = |c: (int, int)| closed.contains(c);
                assert(coords(stack@) =~= Seq::<(int, int)>::empty());
                assert forall|c: (int, int), k: int| inside(c) && 0 <= k < 4 && #[trigger] g0.passable(moved(c, scan_dir(k))) implies inside(moved(c, scan_dir(k))) by {
                    let d = moved(c, scan_dir(k));
                    assert(d == s || (g0.in_bounds_spec(d) && seen.contains(g0.idx(d))));
                    assert(closed.contains(d) || coords(stack@).contains(d));
                }
                assert(closed.contains(s) || coords(stack@).contains(s));
                lemma_unreachable(g0, inside, s, e);
            }
        }
        proof {
            assert forall|c: (int, int)| #[trigger] self.map.cell(c) != g0.cell(c) implies c == s || (g0.passable(c) && g0.reachable(s, c)) by {
                if g0.in_bounds_spec(c) && c != s {
                    assert(seen.contains(g0.idx(c)));
                }
            }
        }
        DfsResult { found, steps, path_length: final_step }
    }

    /// The maze as the search left it.
    pub fn map(&self) -> (r: &Maze)
        ensures
            *r == self.map,
    {
        &self.map
    }

    /// The maze, for changing it in place.
    pub fn map_mut(&mut self) -> (r: &mut Maze)
        ensures
            *r == old(self).map,
            *final(self) == (DFS { map: *final(r), ..*old(self) }),
    {
        &mut self.map
    }
}

/// Runs a depth-first search from `(sx, sy)` to `(ex, ey)` on a copy of
/// `map`, then leaves the explored copy in `map`.
pub fn dfs_search(map: &mut Maze, sx: i32, sy: i32, ex: i32, ey: i32) -> (r: DfsResult)
    requires
        old(map).wf(),
    ensures
        final(map).wf(),
        final(map).same_shape(old(map)),
        r.steps@.len() >= 1,
        pos(r.steps@[0]) == (sx as int, sy as int),
        r.steps@[0].color == Color::yellow_spec(),
        r.found == old(map).reachable((sx as int, sy as int), (ex as int, ey as int)),
        r.found ==> exists|p: Seq<(int, int)>| #[trigger] old(map).is_route(p, (sx as int, sy as int), (ex as int, ey as int)) && p.len() == r.path_length + 1,
        !r.found ==> r.path_length == 0,
        backtracks_ok(r.steps@),
        r.found ==> exists|p: Seq<Point>| #[trigger] shows_route(*old(map), r.steps@, (sx as int, sy as int), (ex as int, ey as int), p) && p.len() == r.path_length + 1,
        r.found ==> pos(r.steps@.last()) == (ex as int, ey as int) && r.steps@.last().color == Color::yellow_spec() && r.steps@.last().direction == Direction::Stay
            && r.steps@.last().step == r.path_length,
        forall|c: (int, int)| #[trigger] final(map).cell(c) != old(map).cell(c) ==> c == (sx as int, sy as int)
            || (old(map).passable(c) && old(map).reachable((sx as int, sy as int), c)),
{
    let mut dfs = DFS::new(map.duplicate(), sx, sy, ex, ey);
    proof {
        dfs.map.lemma_same_routes(old(map));
    }
    let ghost copy = dfs.map;
    let result = dfs.search();
    proof {
        if result.found {
            let p = choose|p: Seq<Point>| #[trigger] shows_route(copy, result.steps@, (sx as int, sy as int), (ex as int, ey as int), p) && p.len() == result.path_length + 1;
            assert(old(map).is_route(coords(p), (sx as int, sy as int), (ex as int, ey as int)));
            assert(shows_route(*old(map), result.steps@, (sx as int, sy as int), (ex as int, ey as int), p));
        }
    }
    *map = dfs.map;
    result
}

} // verus!
