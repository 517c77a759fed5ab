//! What the search engines share: the predecessor table, its invariant, and
//! path reconstruction from it.
use vstd::prelude::*;
use vstd::set_lib::*;
use crate::map::{adjacent, moved, scan_dir, Maze, BACKTRACK};
use crate::point::{pos, Color, Point};
use crate::tree::simple;

verus! {

/// Indices of the cells that have a table entry.
pub open spec fn entries(pre: Seq<Option<Point>>) -> Set<int> {
    Set::new(|i: int| 0 <= i < pre.len() && pre[i] is Some)
}

/// The coordinates of a sequence of points.
pub open spec fn coords(s: Seq<Point>) -> Seq<(int, int)> {
    s.map_values(|p: Point| pos(p))
}

/// `c` has an entry in the predecessor table `pre` (indexed by `g.idx`).
pub open spec fn key(g: Maze, pre: Seq<Option<Point>>, c: (int, int)) -> bool {
    g.in_bounds_spec(c) && pre[g.idx(c)] is Some
}

/// The cell from which `c` was reached.
pub open spec fn parent(g: Maze, pre: Seq<Option<Point>>, c: (int, int)) -> (int, int) {
    pos(pre[g.idx(c)]->Some_0)
}

/// The entry of `c` is a step from a passable neighbour back towards `root`,
/// one shorter than `c`'s own depth.
pub open spec fn link_ok(g: Maze, pre: Seq<Option<Point>>, root: (int, int), depth: Seq<int>, c: (int, int)) -> bool {
    let p = parent(g, pre, c);
    &&& g.passable(c)
    &&& adjacent(p, c)
    &&& c != root
    &&& depth[g.idx(c)] >= 1
    &&& ((p == root && depth[g.idx(c)] == 1) || (key(g, pre, p) && depth[g.idx(p)] + 1 == depth[g.idx(c)]))
}

/// Every entry of the table leads back to `root` along passable cells, and
/// `depth` strictly decreases along the way: the table is a tree rooted at
/// `root`, so following it always terminates.
pub open spec fn chain_ok(g: Maze, pre: Seq<Option<Point>>, root: (int, int), depth: Seq<int>) -> bool {
    &&& pre.len() == g.size()
    &&& depth.len() == g.size()
    &&& forall|c: (int, int)| #[trigger] key(g, pre, c) ==> link_ok(g, pre, root, depth, c)
}

/// Number of links from `c` back to `root`.
pub open spec fn depth_of(g: Maze, depth: Seq<int>, root: (int, int), c: (int, int)) -> int {
    if c == root {
        0
    } else {
        depth[g.idx(c)]
    }
}

/// A route stays a route when no passable cell closes.
pub proof fn lemma_route_grow(g1: Maze, g2: Maze, p: Seq<(int, int)>, s: (int, int), e: (int, int))
    requires
        g1.m == g2.m,
        g1.n == g2.n,
        forall|c: (int, int)| #[trigger] g1.passable(c) ==> g2.passable(c),
        g1.is_route(p, s, e),
    ensures
        g2.is_route(p, s, e),
{
    assert forall|q: Seq<(int, int)>, a: (int, int), b: (int, int)| #[trigger] g1.is_route(q, a, b) implies g2.is_route(q, a, b) by {
        assert forall|i: int| 0 < i < q.len() implies #[trigger] g2.passable(q[i]) && adjacent(q[i - 1], q[i]) by {
            assert(g1.passable(q[i]));
        }
    }
}

/// Every cell with a table entry can be reached from the root.
pub proof fn lemma_key_reachable(g0: Maze, pre: Seq<Option<Point>>, root: (int, int), depth: Seq<int>, c: (int, int))
    requires
        chain_ok(g0, pre, root, depth),
        key(g0, pre, c),
    ensures
        g0.passable(c),
        g0.reachable(root, c),
        g0.within(root, c, depth[g0.idx(c)]),
    decreases depth[g0.idx(c)],
{
    assert(link_ok(g0, pre, root, depth, c));
    let p = parent(g0, pre, c);
    if p == root {
        assert(g0.is_route(seq![root, c], root, c));
    } else {
        lemma_key_reachable(g0, pre, root, depth, p);
        let q = choose|q: Seq<(int, int)>| g0.is_route(q, root, p) && q.len() <= depth[g0.idx(p)] + 1;
        g0.lemma_route_push(q, root, p, c);
        assert(g0.is_route(q.push(c), root, c) && q.push(c).len() <= depth[g0.idx(c)] + 1);
    }
}

/// Flat indices of inside cells are in range and distinct.
pub proof fn lemma_idx(g: Maze, a: (int, int), b: (int, int))
    requires
        g.wf(),
        g.in_bounds_spec(a),
        g.in_bounds_spec(b),
    ensures
        0 <= g.idx(a) < g.size(),
        g.m + 2 <= g.idx(a),
        g.idx(a) == g.idx(b) <==> a == b,
{
    let w = g.m + 1;
    assert(w <= a.1 * w) by (nonlinear_arith)
        requires
            1 <= w,
            1 <= a.1,
    ;
    assert(0 <= a.1 * w + a.0 < w * (g.n + 1)) by (nonlinear_arith)
        requires
            1 <= a.0 < w,
            1 <= a.1 <= g.n,
    ;
    if a.1 * w + a.0 == b.1 * w + b.0 {
        assert(a.1 == b.1) by (nonlinear_arith)
            requires
                a.1 * w + a.0 == b.1 * w + b.0,
                0 <= a.0 < w,
                0 <= b.0 < w,
        ;
    }
}

/// One step in a direction other than `Stay` reaches an adjacent cell, and
/// every adjacent cell is reached by one of the four scanned directions.
pub proof fn lemma_adjacent_dir(a: (int, int), b: (int, int))
    ensures
        adjacent(a, b) <==> exists|k: int| 0 <= k < 4 && moved(a, #[trigger] scan_dir(k)) == b,
{
    if adjacent(a, b) {
        if b == moved(a, scan_dir(0)) {
        } else if b == moved(a, scan_dir(1)) {
        } else if b == moved(a, scan_dir(2)) {
        } else {
            assert(moved(a, scan_dir(3)) == b);
        }
    }
}

/// Position of `(x, y)` in a table indexed like `g`'s cells.
pub fn cell_index(g: &Maze, x: i32, y: i32) -> (i: usize)
    requires
        g.wf(),
        g.in_bounds_spec((x as int, y as int)),
    ensures
        i as int == g.idx((x as int, y as int)),
        i < g.size(),
{
    proof {
        lemma_idx(*g, (x as int, y as int), (x as int, y as int));
        assert(y * (g.m + 1) <= y * (g.m + 1) + x);
        g.lemma_dims();
    }
    (y as usize) * ((g.m + 1) as usize) + (x as usize)
}

/// Every passable neighbour of a cell in `seen` is in `seen`.
pub open spec fn closed_under_moves(g: Maze, seen: spec_fn((int, int)) -> bool) -> bool {
    forall|c: (int, int), k: int|
        seen(c) && 0 <= k < 4 && #[trigger] g.passable(moved(c, scan_dir(k))) ==> seen(moved(c, scan_dir(k)))
}

proof fn lemma_route_seen(g: Maze, seen: spec_fn((int, int)) -> bool, p: Seq<(int, int)>, s: (int, int), e: (int, int), i: int)
    requires
        seen(s),
        closed_under_moves(g, seen),
        g.is_route(p, s, e),
        0 <= i < p.len(),
    ensures
        seen(p[i]),
    decreases i,
{
    if i > 0 {
        lemma_route_seen(g, seen, p, s, e, i - 1);
        assert(g.passable(p[i]) && adjacent(p[i - 1], p[i]));
        lemma_adjacent_dir(p[i - 1], p[i]);
        let k = choose|k: int| 0 <= k < 4 && moved(p[i - 1], #[trigger] scan_dir(k)) == p[i];
        assert(g.passable(moved(p[i - 1], scan_dir(k))));
    }
}

/// A set of cells that holds `s`, is closed under passable moves and misses
/// `e` shows that no route leads from `s` to `e`.
pub proof fn lemma_unreachable(g: Maze, seen: spec_fn((int, int)) -> bool, s: (int, int), e: (int, int))
    requires
        seen(s),
        !seen(e),
        closed_under_moves(g, seen),
    ensures
        !g.reachable(s, e),
{
    if g.reachable(s, e) {
        let p = choose|p: Seq<(int, int)>| g.is_route(p, s, e);
        lemma_route_seen(g, seen, p, s, e, p.len() - 1);
    }
}

/// An empty predecessor table for `g`.
pub fn empty_table(g: &Maze) -> (t: Vec<Option<Point>>)
    requires
        g.wf(),
    ensures
        t@.len() == g.size(),
        forall|i: int| 0 <= i < t@.len() ==> t@[i] is None,
{
    proof {
        g.lemma_dims();
    }
    let total = ((g.m + 1) as usize) * ((g.n + 1) as usize);
    let mut t: Vec<Option<Point>> = Vec::new();
    let mut i: usize = 0;
    while i < total
        invariant
            i <= total,
            total == g.size(),
            t@.len() == i,
            forall|j: int| 0 <= j < i ==> t@[j] is None,
        decreases total - i,
    {
        t.push(None);
        i = i + 1;
    }
    t
}

/// The table entry of `(x, y)`, if it has one.
pub fn lookup(g: &Maze, pre: &Vec<Option<Point>>, x: i32, y: i32) -> (r: Option<Point>)
    requires
        g.wf(),
        pre@.len() == g.size(),
    ensures
        r is Some <==> key(*g, pre@, (x as int, y as int)),
        r is Some ==> r == pre@[g.idx((x as int, y as int))],
{
    if g.in_bounds(x, y) {
        let i = cell_index(g, x, y);
        match &pre[i] {
            Some(p) => Some(p.copy()),
            None => None,
        }
    } else {
        None
    }
}

/// Follows the table from `from` to its root `end` and returns the cells in
/// that order, each entry's direction reversed so that it reads towards
/// `end`; `end` itself closes the list.
pub fn trace_forward(
    g: &Maze,
    Ghost(g0): Ghost<Maze>,
    pre: &Vec<Option<Point>>,
    Ghost(depth): Ghost<Seq<int>>,
    end: &Point,
    from: &Point,
) -> (path: Vec<Point>)
    requires
        g.wf(),
        g0.wf(),
        g0.m == g.m,
        g0.n == g.n,
        chain_ok(g0, pre@, pos(*end), depth),
        pos(*from) == pos(*end) || key(g0, pre@, pos(*from)),
    ensures
        path@.len() == depth_of(g0, depth, pos(*end), pos(*from)) + 1,
        coords(path@)[0] == pos(*from),
        coords(path@).last() == pos(*end),
        forall|i: int| 0 < i < path@.len() ==> #[trigger] adjacent(coords(path@)[i - 1], coords(path@)[i]),
        forall|i: int| 0 <= i < path@.len() - 1 ==> #[trigger] g0.passable(coords(path@)[i]),
        forall|i: int| 0 <= i < path@.len() - 1 ==> #[trigger] key(g0, pre@, coords(path@)[i]),
        simple(coords(path@)),
        path@.len() <= entries(pre@).len() + 1,
{
    let ghost e = pos(*end);
    let mut path: Vec<Point> = Vec::new();
    let mut current = from.copy();
    let ghost mut walked: Set<int> = Set::empty();
    proof {
        g0.lemma_dims();
        lemma_int_range(0, g0.size());
        lemma_len_subset(entries(pre@), set_int_range(0, g0.size()));
    }
    while !(current == *end)
        invariant
            walked.finite(),
            walked.subset_of(entries(pre@)),
            entries(pre@).finite(),
            walked.len() == path@.len(),
            forall|i: int| #[trigger] walked.contains(i) ==> depth[i] > depth_of(g0, depth, e, pos(current)),
            g0.wf(),
            g.wf(),
            g0.m == g.m,
            g0.n == g.n,
            chain_ok(g0, pre@, e, depth),
            e == pos(*end),
            pos(current) == e || key(g0, pre@, pos(current)),
            path@.len() == 0 ==> pos(current) == pos(*from),
            path@.len() > 0 ==> pos(path@[0]) == pos(*from),
            path@.len() + depth_of(g0, depth, e, pos(current)) == depth_of(g0, depth, e, pos(*from)),
            forall|i: int| 0 <= i < path@.len() ==> #[trigger] g0.passable(pos(path@[i])),
            forall|i: int| 0 <= i < path@.len() ==> key(g0, pre@, pos(#[trigger] path@[i])) && pos(path@[i]) != e
                && depth[g0.idx(pos(path@[i]))] == depth_of(g0, depth, e, pos(*from)) - i,
            forall|i: int| 0 < i < path@.len() ==> #[trigger] adjacent(pos(path@[i - 1]), pos(path@[i])),
            path@.len() > 0 ==> adjacent(pos(path@.last()), pos(current)),
        decreases depth_of(g0, depth, e, pos(current)),
    {
        proof {
            let ci = g0.idx(pos(current));
            lemma_idx(g0, pos(current), pos(current));
            assert(key(g0, pre@, pos(current)));
            assert(!walked.contains(ci));
            walked = walked.insert(ci);
            assert(link_ok(g0, pre@, e, depth, pos(current)));
        }
        let mut shown = current.copy();
        shown.direction = current.direction.reverse();
        path.push(shown);
        let prev = lookup(g, pre, current.x, current.y).unwrap();
        current = prev;
    }
    proof {
        lemma_len_subset(walked, entries(pre@));
    }
    path.push(end.copy());
    proof {
        assert forall|i: int| 0 < i < path@.len() implies #[trigger] adjacent(coords(path@)[i - 1], coords(path@)[i]) by {
            assert(coords(path@)[i] == pos(path@[i]));
            assert(coords(path@)[i - 1] == pos(path@[i - 1]));
        }
        assert forall|i: int| 0 <= i < path@.len() - 1 implies #[trigger] g0.passable(coords(path@)[i]) by {
            assert(coords(path@)[i] == pos(path@[i]));
        }
        assert forall|i: int| 0 <= i < path@.len() - 1 implies #[trigger] key(g0, pre@, coords(path@)[i]) by {
            assert(coords(path@)[i] == pos(path@[i]));
        }
        assert forall|i: int, j: int| 0 <= i < j < path@.len() implies coords(path@)[i] != coords(path@)[j] by {
            assert(coords(path@)[i] == pos(path@[i]));
            assert(coords(path@)[j] == pos(path@[j]));
            assert(key(g0, pre@, pos(path@[i])));
            if j < path@.len() - 1 {
                assert(key(g0, pre@, pos(path@[j])));
            }
        }
    }
    path
}

/// `v` in reverse order.
pub fn reversed(v: &Vec<Point>) -> (r: Vec<Point>)
    ensures
        r@ == v@.reverse(),
{
    let mut r: Vec<Point> = Vec::new();
    let mut i: usize = v.len();
    while i > 0
        invariant
            i <= v@.len(),
            r@ == v@.subrange(i as int, v@.len() as int).reverse(),
        decreases i,
    {
        i = i - 1;
        r.push(v[i].copy());
        assert(r@ =~= v@.subrange(i as int, v@.len() as int).reverse());
    }
    assert(v@.subrange(0, v@.len() as int) =~= v@);
    r
}

/// Follows the table back from `from` to `start`, marking each cell on the
/// way as backtracked and recording the table entries in `steps` in light
/// red (their directions reversed when `flip`).
pub fn mark_trace(
    map: &mut Maze,
    Ghost(g0): Ghost<Maze>,
    pre: &Vec<Option<Point>>,
    Ghost(depth): Ghost<Seq<int>>,
    start: &Point,
    from: Point,
    steps: &mut Vec<Point>,
    flip: bool,
)
    requires
        old(map).wf(),
        g0.m == old(map).m,
        g0.n == old(map).n,
        chain_ok(g0, pre@, pos(*start), depth),
        pos(from) == pos(*start) || key(g0, pre@, pos(from)),
    ensures
        final(map).wf(),
        final(map).same_shape(old(map)),
        final(steps)@.len() >= old(steps)@.len(),
        final(steps)@.subrange(0, old(steps)@.len() as int) == old(steps)@,
        old(steps)@.len() >= 1 ==> final(steps)@[0] == old(steps)@[0],
        forall|c: (int, int)| #[trigger] final(map).cell(c) == old(map).cell(c) || c == pos(*start) || key(g0, pre@, c),
        forall|i: int| old(steps)@.len() <= i < final(steps)@.len() ==> #[trigger] final(steps)@[i].color == Color::light_red_spec(),
{
    let ghost s = pos(*start);
    let ghost before = old(steps)@;
    let ghost m0 = *old(map);
    let mut path_point = from;
    while !(path_point == *start)
        invariant
            map.wf(),
            map.same_shape(&m0),
            g0.m == map.m,
            g0.n == map.n,
            chain_ok(g0, pre@, s, depth),
            s == pos(*start),
            pos(path_point) == s || key(g0, pre@, pos(path_point)),
            steps@.len() >= before.len(),
            steps@.subrange(0, before.len() as int) == before,
            forall|c: (int, int)| #[trigger] map.cell(c) == m0.cell(c) || c == s || key(g0, pre@, c),
            forall|i: int| before.len() <= i < steps@.len() ==> #[trigger] steps@[i].color == Color::light_red_spec(),
        decreases depth_of(g0, depth, s, pos(path_point)),
    {
        proof {
            assert(key(g0, pre@, pos(path_point)));
            assert(link_ok(g0, pre@, s, depth, pos(path_point)));
        }
        map.set_cell(path_point.x, path_point.y, BACKTRACK);
        let prev = lookup(map, pre, path_point.x, path_point.y).unwrap();
        let mut shown = prev.copy();
        shown.color = Color::light_red();
        if flip {
            shown.direction = prev.direction.reverse();
        }
        steps.push(shown);
        assert(steps@.subrange(0, before.len() as int) =~= before);
        path_point = prev;
    }
    proof {
        if before.len() >= 1 {
            assert(steps@.subrange(0, before.len() as int)[0] == steps@[0]);
        }
    }
}

/// Follows the table back from `end` to `start` and returns the cells in
/// order from `start` to `end`. When `end` (other than `start`) has no
/// entry the walk stops at once, and the result is `[start]` alone.
pub fn trace_path(
    g: &Maze,
    Ghost(g0): Ghost<Maze>,
    pre: &Vec<Option<Point>>,
    Ghost(depth): Ghost<Seq<int>>,
    start: &Point,
    end: &Point,
) -> (path: Vec<Point>)
    requires
        g.wf(),
        g0.wf(),
        g0.m == g.m,
        g0.n == g.n,
        chain_ok(g0, pre@, pos(*start), depth),
    ensures
        path@.len() >= 1,
        path@[0] == *start,
        pos(*end) == pos(*start) || key(g0, pre@, pos(*end)) ==> {
            &&& g0.is_route(coords(path@), pos(*start), pos(*end))
            &&& path@.len() == depth_of(g0, depth, pos(*start), pos(*end)) + 1
            &&& path@.len() <= entries(pre@).len() + 1
            &&& simple(coords(path@))
            &&& forall|i: int| 0 < i < path@.len() ==> #[trigger] key(g0, pre@, coords(path@)[i])
        },
        !(pos(*end) == pos(*start) || key(g0, pre@, pos(*end))) ==> path@.len() == 1,
{
    let ghost s = pos(*start);
    let ghost e = pos(*end);
    let mut back: Vec<Point> = Vec::new();
    if !(*end == *start) && lookup(g, pre, end.x, end.y).is_none() {
        back.push(start.copy());
        return back;
    }
    let mut current = end.copy();
    let ghost mut walked: Set<int> = Set::empty();
    proof {
        g0.lemma_dims();
        lemma_int_range(0, g0.size());
        lemma_len_subset(entries(pre@), set_int_range(0, g0.size()));
    }
    while !(current == *start)
        invariant
            walked.finite(),
            walked.subset_of(entries(pre@)),
            entries(pre@).finite(),
            walked.len() == back@.len(),
            forall|i: int| #[trigger] walked.contains(i) ==> depth[i] > depth_of(g0, depth, s, pos(current)),
            g0.wf(),
            g.wf(),
            g0.m == g.m,
            g0.n == g.n,
            chain_ok(g0, pre@, s, depth),
            s == pos(*start),
            e == pos(*end),
            pos(current) == s || key(g0, pre@, pos(current)),
            back@.len() == 0 ==> pos(current) == e,
            back@.len() > 0 ==> pos(back@[0]) == e,
            back@.len() + depth_of(g0, depth, s, pos(current)) == depth_of(g0, depth, s, e),
            forall|i: int| 0 <= i < back@.len() ==> #[trigger] g0.passable(pos(back@[i])),
            forall|i: int| 0 <= i < back@.len() ==> key(g0, pre@, pos(#[trigger] back@[i])) && pos(back@[i]) != s
                && depth[g0.idx(pos(back@[i]))] == depth_of(g0, depth, s, e) - i,
            forall|i: int| 0 <= i < back@.len() ==> adjacent(pos(#[trigger] back@[i]),
                if i + 1 < back@.len() { pos(back@[i + 1]) } else { pos(current) }),
        decreases depth_of(g0, depth, s, pos(current)),
    {
        proof {
            assert(key(g0, pre@, pos(current)));
            assert(link_ok(g0, pre@, s, depth, pos(current)));
        }
        proof {
            let ci = g0.idx(pos(current));
            lemma_idx(g0, pos(current), pos(current));
            assert(!walked.contains(ci));
            walked = walked.insert(ci);
        }
        back.push(current.copy());
        let prev = lookup(g, pre, current.x, current.y).unwrap();
        current = prev;
    }
    proof {
        lemma_len_subset(walked, entries(pre@));
    }
    back.push(start.copy());
    let path = reversed(&back);
    proof {
        let b = back@;
        assert(coords(path@) =~= coords(b).reverse());
        assert forall|i: int| 0 < i < path@.len() implies #[trigger] g0.passable(coords(path@)[i]) && adjacent(coords(path@)[i - 1], coords(path@)[i]) by {
            let j = b.len() - 1 - i;
            assert(coords(path@)[i] == pos(b[j]));
            assert(coords(path@)[i - 1] == pos(b[j + 1]));
            assert(g0.passable(pos(b[j])));
            assert(adjacent(pos(b[j]), pos(b[j + 1])));
        }
        assert forall|i: int, j: int| 0 <= i < j < path@.len() implies coords(path@)[i] != coords(path@)[j] by {
            let bi = b.len() - 1 - i;
            let bj = b.len() - 1 - j;
            assert(coords(path@)[i] == pos(b[bi]));
            assert(coords(path@)[j] == pos(b[bj]));
            if bi < b.len() - 1 {
                assert(b[bi] == back@[bi] && b[bj] == back@[bj]);
                assert(key(g0, pre@, pos(back@[bi])) && key(g0, pre@, pos(back@[bj])));
            } else {
                assert(b[bj] == back@[bj]);
                assert(pos(back@[bj]) != s);
            }
        }
        assert forall|i: int| 0 < i < path@.len() implies #[trigger] key(g0, pre@, coords(path@)[i]) by {
            let j = b.len() - 1 - i;
            assert(coords(path@)[i] == pos(b[j]));
            assert(b[j] == back@[j]);
        }
    }
    path
}

} // verus!
