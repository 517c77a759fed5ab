//! Why a generated maze has one route between any two of its open cells:
//! taking down a wall between two separate components can never close a
//! loop.
use vstd::prelude::*;
use crate::map::{adjacent, lidx, logical, wall_ends, wall_slot, Maze};
use crate::union_find::UnionFind;

verus! {

/// A logical cell or a wall between two logical cells.
pub open spec fn structural(m: int, n: int, c: (int, int)) -> bool {
    logical(m, n, c) || wall_slot(m, n, c)
}

/// No cell occurs twice.
pub open spec fn simple(p: Seq<(int, int)>) -> bool {
    forall|i: int, j: int| 0 <= i < j < p.len() ==> p[i] != p[j]
}

impl Maze {
    /// A walk through open cells only, each visited once.
    pub open spec fn open_path(&self, p: Seq<(int, int)>) -> bool {
        &&& p.len() >= 1
        &&& forall|i: int| 0 <= i < p.len() ==> #[trigger] self.passable(p[i])
        &&& forall|i: int| 0 < i < p.len() ==> #[trigger] adjacent(p[i - 1], p[i])
        &&& simple(p)
    }

    /// Between any two open cells there is at most one open path.
    pub open spec fn tree_like(&self) -> bool {
        forall|p: Seq<(int, int)>, q: Seq<(int, int)>|
            #[trigger] self.open_path(p) && #[trigger] self.open_path(q) && p[0] == q[0] && p.last() == q.last() ==> p == q
    }
}

/// Two neighbouring cells of the maze's structure are a logical cell and a
/// wall that has it as one of its two sides.
pub proof fn lemma_adjacent_structural(m: int, n: int, a: (int, int), b: (int, int))
    requires
        structural(m, n, a),
        structural(m, n, b),
        adjacent(a, b),
    ensures
        (logical(m, n, a) && wall_slot(m, n, b) && (a == wall_ends(b).0 || a == wall_ends(b).1))
            || (logical(m, n, b) && wall_slot(m, n, a) && (b == wall_ends(a).0 || b == wall_ends(a).1)),
{
}

/// The set a cell belongs to: its own for a logical cell, its sides' for a
/// wall.
pub(crate) open spec fn cls(uf: UnionFind, cx: int, c: (int, int)) -> int {
    if c.0 % 2 == 1 && c.1 % 2 == 1 {
        uf.root(lidx(cx, c))
    } else {
        uf.root(lidx(cx, wall_ends(c).0))
    }
}

/// The open cells of `g` are structural, and every open wall joins two
/// cells of one set of `uf`.
pub(crate) open spec fn classes(g: Maze, uf: UnionFind, m: int, n: int, cx: int) -> bool {
    &&& g.m == m
    &&& g.n == n
    &&& forall|c: (int, int)| #[trigger] g.passable(c) ==> structural(m, n, c)
    &&& forall|c: (int, int)| wall_slot(m, n, c) && #[trigger] g.passable(c) ==> uf.root(lidx(cx, wall_ends(c).0)) == uf.root(lidx(cx, wall_ends(c).1))
}

/// Along an open path every cell is in the set of the first.
pub(crate) proof fn lemma_path_class(g: Maze, uf: UnionFind, m: int, n: int, cx: int, p: Seq<(int, int)>, i: int)
    requires
        classes(g, uf, m, n, cx),
        g.open_path(p),
        0 <= i < p.len(),
    ensures
        cls(uf, cx, p[i]) == cls(uf, cx, p[0]),
    decreases i,
{
    if i > 0 {
        lemma_path_class(g, uf, m, n, cx, p, i - 1);
        assert(g.passable(p[i - 1]) && g.passable(p[i]) && adjacent(p[i - 1], p[i]));
        lemma_adjacent_structural(m, n, p[i - 1], p[i]);
    }
}

pub(crate) proof fn lemma_sub_path(g: Maze, p: Seq<(int, int)>, i: int, j: int)
    requires
        g.open_path(p),
        0 <= i < j <= p.len(),
    ensures
        g.open_path(p.subrange(i, j)),
{
    let r = p.subrange(i, j);
    assert forall|k: int| 0 <= k < r.len() implies #[trigger] g.passable(r[k]) by {
        assert(r[k] == p[i + k]);
    }
    assert forall|k: int| 0 < k < r.len() implies #[trigger] adjacent(r[k - 1], r[k]) by {
        assert(r[k] == p[i + k] && r[k - 1] == p[i + k - 1]);
    }
}

/// What one step of the generator does to the grid: the wall `w` between
/// `a0` and `b0`, two cells of different sets, is opened together with
/// both cells.
pub(crate) open spec fn carve_step(g: Maze, g2: Maze, uf: UnionFind, m: int, n: int, cx: int, a0: (int, int), b0: (int, int), w: (int, int)) -> bool {
    &&& classes(g, uf, m, n, cx)
    &&& g2.m == m
    &&& g2.n == n
    &&& wall_slot(m, n, w)
    &&& wall_ends(w) == (a0, b0)
    &&& logical(m, n, a0)
    &&& logical(m, n, b0)
    &&& uf.root(lidx(cx, a0)) != uf.root(lidx(cx, b0))
    &&& !g.passable(w)
    &&& forall|c: (int, int)| #[trigger] g2.passable(c) <==> g.passable(c) || c == a0 || c == b0 || c == w
    &&& forall|x: (int, int), y: (int, int)| logical(m, n, x) && !g.passable(x) && logical(m, n, y)
        && #[trigger] uf.root(lidx(cx, y)) == #[trigger] uf.root(lidx(cx, x)) ==> y == x
    &&& g.tree_like()
}

/// A cell opened in this step has no open neighbour but the new wall.
proof fn lemma_isolated(g: Maze, g2: Maze, uf: UnionFind, m: int, n: int, cx: int, a0: (int, int), b0: (int, int), w: (int, int), z: (int, int), c: (int, int))
    requires
        carve_step(g, g2, uf, m, n, cx, a0, b0, w),
        z == a0 || z == b0,
        !g.passable(z),
        adjacent(z, c),
        g2.passable(c),
    ensures
        c == w,
{
    if c == w {
        return;
    }
    assert(g.passable(c) || c == a0 || c == b0);
    if c == a0 || c == b0 {
        assert(logical(m, n, c) && logical(m, n, z));
    } else {
        assert(structural(m, n, c));
        lemma_adjacent_structural(m, n, z, c);
        let other = if z == wall_ends(c).0 { wall_ends(c).1 } else { wall_ends(c).0 };
        assert(uf.root(lidx(cx, wall_ends(c).0)) == uf.root(lidx(cx, wall_ends(c).1)));
        assert(logical(m, n, other));
        assert(uf.root(lidx(cx, other)) == uf.root(lidx(cx, z)));
    }
}

/// An open path that avoids the new wall and starts at a cell that was
/// open before was open before.
proof fn lemma_was_open(g: Maze, g2: Maze, uf: UnionFind, m: int, n: int, cx: int, a0: (int, int), b0: (int, int), w: (int, int), r: Seq<(int, int)>, i: int)
    requires
        carve_step(g, g2, uf, m, n, cx, a0, b0, w),
        g2.open_path(r),
        forall|k: int| 0 <= k < r.len() ==> r[k] != w,
        g.passable(r[0]),
        0 <= i < r.len(),
    ensures
        g.passable(r[i]),
    decreases i,
{
    if i > 0 {
        lemma_was_open(g, g2, uf, m, n, cx, a0, b0, w, r, i - 1);
        assert(g2.passable(r[i]) && adjacent(r[i - 1], r[i]) && g2.passable(r[i - 1]));
        if !g.passable(r[i]) {
            assert(r[i] == a0 || r[i] == b0);
            lemma_isolated(g, g2, uf, m, n, cx, a0, b0, w, r[i], r[i - 1]);
        }
    }
}

/// An open path avoiding the new wall is either an old open path or a
/// single newly opened cell; either way it stays in one set.
proof fn lemma_side(g: Maze, g2: Maze, uf: UnionFind, m: int, n: int, cx: int, a0: (int, int), b0: (int, int), w: (int, int), r: Seq<(int, int)>)
    requires
        carve_step(g, g2, uf, m, n, cx, a0, b0, w),
        g2.open_path(r),
        forall|k: int| 0 <= k < r.len() ==> r[k] != w,
    ensures
        g.passable(r[0]) ==> g.open_path(r),
        !g.passable(r[0]) ==> r.len() == 1,
        cls(uf, cx, r.last()) == cls(uf, cx, r[0]),
{
    if g.passable(r[0]) {
        assert forall|k: int| 0 <= k < r.len() implies #[trigger] g.passable(r[k]) by {
            lemma_was_open(g, g2, uf, m, n, cx, a0, b0, w, r, k);
        }
        assert(g.open_path(r));
        lemma_path_class(g, uf, m, n, cx, r, r.len() - 1);
    } else {
        assert(g2.passable(r[0]));
        if r.len() > 1 {
            assert(adjacent(r[1 - 1], r[1]) && g2.passable(r[1]) && r[1] != w);
            lemma_isolated(g, g2, uf, m, n, cx, a0, b0, w, r[0], r[1]);
        }
    }
}

/// Two open paths avoiding the new wall with the same ends are equal.
proof fn lemma_same_side(g: Maze, g2: Maze, uf: UnionFind, m: int, n: int, cx: int, a0: (int, int), b0: (int, int), w: (int, int), r1: Seq<(int, int)>, r2: Seq<(int, int)>)
    requires
        carve_step(g, g2, uf, m, n, cx, a0, b0, w),
        g2.open_path(r1),
        g2.open_path(r2),
        forall|k: int| 0 <= k < r1.len() ==> r1[k] != w,
        forall|k: int| 0 <= k < r2.len() ==> r2[k] != w,
        r1[0] == r2[0],
        r1.last() == r2.last(),
    ensures
        r1 == r2,
{
    lemma_side(g, g2, uf, m, n, cx, a0, b0, w, r1);
    lemma_side(g, g2, uf, m, n, cx, a0, b0, w, r2);
    if !g.passable(r1[0]) {
        assert(r1 =~= r2);
    } else {
        assert(g.open_path(r1) && g.open_path(r2));
    }
}

/// The neighbours of the new wall on an open path are its two sides.
proof fn lemma_wall_neighbor(g: Maze, g2: Maze, uf: UnionFind, m: int, n: int, cx: int, a0: (int, int), b0: (int, int), w: (int, int), c: (int, int))
    requires
        carve_step(g, g2, uf, m, n, cx, a0, b0, w),
        g2.passable(c),
        adjacent(w, c) || adjacent(c, w),
    ensures
        c == a0 || c == b0,
{
    assert(structural(m, n, c)) by {
        if g.passable(c) {
        }
    }
    assert(adjacent(w, c));
    lemma_adjacent_structural(m, n, w, c);
}

/// In a simple sequence an element occurs at one position only.
proof fn lemma_unique_at(p: Seq<(int, int)>, k: int, j: int)
    requires
        simple(p),
        0 <= k < p.len(),
        0 <= j < p.len(),
        p[k] == p[j],
    ensures
        k == j,
{
    if k < j {
        assert(p[k] != p[j]);
    } else if j < k {
        assert(p[j] != p[k]);
    }
}

/// A path through the new wall, split there.
proof fn lemma_split(g2: Maze, p: Seq<(int, int)>, k: int)
    requires
        g2.open_path(p),
        0 <= k < p.len(),
    ensures
        p == p.subrange(0, k) + seq![p[k]] + p.subrange(k + 1, p.len() as int),
        forall|i: int| 0 <= i < k ==> #[trigger] p.subrange(0, k)[i] != p[k],
        forall|i: int| 0 <= i < p.len() - k - 1 ==> #[trigger] p.subrange(k + 1, p.len() as int)[i] != p[k],
{
    assert(p =~= p.subrange(0, k) + seq![p[k]] + p.subrange(k + 1, p.len() as int));
    assert forall|i: int| 0 <= i < k implies #[trigger] p.subrange(0, k)[i] != p[k] by {
        assert(p.subrange(0, k)[i] == p[i]);
    }
    assert forall|i: int| 0 <= i < p.len() - k - 1 implies #[trigger] p.subrange(k + 1, p.len() as int)[i] != p[k] by {
        assert(p.subrange(k + 1, p.len() as int)[i] == p[k + 1 + i]);
    }
}

/// An open path with the same ends as one through the new wall goes
/// through it too.
proof fn lemma_through_and_around(g: Maze, g2: Maze, uf: UnionFind, m: int, n: int, cx: int, a0: (int, int), b0: (int, int), w: (int, int), p: Seq<(int, int)>, q: Seq<(int, int)>, k: int)
    requires
        carve_step(g, g2, uf, m, n, cx, a0, b0, w),
        g2.open_path(p),
        g2.open_path(q),
        p[0] == q[0],
        p.last() == q.last(),
        0 <= k < p.len(),
        p[k] == w,
    ensures
        exists|i: int| 0 <= i < q.len() && q[i] == w,
{
    if exists|i: int| 0 <= i < q.len() && q[i] == w {
        return;
    }
    let x = p[0];
    let y = p.last();
    assert(q[0] != w && q[q.len() - 1] != w);
    assert(k > 0);
    assert(k < p.len() - 1);
    lemma_split(g2, p, k);
    let p1 = p.subrange(0, k);
    let p2 = p.subrange(k + 1, p.len() as int);
    lemma_sub_path(g2, p, 0, k);
    lemma_sub_path(g2, p, k + 1, p.len() as int);
    assert(g2.passable(p[k - 1]) && adjacent(p[k - 1], p[k]));
    assert(g2.passable(p[k + 1]) && adjacent(p[(k + 1) - 1], p[k + 1]));
    lemma_wall_neighbor(g, g2, uf, m, n, cx, a0, b0, w, p[k - 1]);
    lemma_wall_neighbor(g, g2, uf, m, n, cx, a0, b0, w, p[k + 1]);
    assert(p[k - 1] != p[k + 1]);
    lemma_side(g, g2, uf, m, n, cx, a0, b0, w, p1);
    lemma_side(g, g2, uf, m, n, cx, a0, b0, w, p2);
    lemma_side(g, g2, uf, m, n, cx, a0, b0, w, q);
    assert(p1.last() == p[k - 1] && p1[0] == x);
    assert(p2[0] == p[k + 1] && p2.last() == y);
}

/// Opening the wall keeps the open paths unique.
pub(crate) proof fn lemma_tree_step(g: Maze, g2: Maze, uf: UnionFind, m: int, n: int, cx: int, a0: (int, int), b0: (int, int), w: (int, int))
    requires
        carve_step(g, g2, uf, m, n, cx, a0, b0, w),
    ensures
        g2.tree_like(),
{
    assert forall|p: Seq<(int, int)>, q: Seq<(int, int)>|
        #[trigger] g2.open_path(p) && #[trigger] g2.open_path(q) && p[0] == q[0] && p.last() == q.last() implies p == q by {
        let x = p[0];
        let y = p.last();
        if x == y {
            if p.len() > 1 {
                assert(p[0] != p[p.len() - 1]);
            }
            if q.len() > 1 {
                assert(q[0] != q[q.len() - 1]);
            }
            assert(p =~= q);
        } else {
            let pw = exists|k: int| 0 <= k < p.len() && p[k] == w;
            let qw = exists|k: int| 0 <= k < q.len() && q[k] == w;
            if !pw && !qw {
                lemma_same_side(g, g2, uf, m, n, cx, a0, b0, w, p, q);
            } else if pw && !qw {
                let k = choose|k: int| 0 <= k < p.len() && p[k] == w;
                lemma_through_and_around(g, g2, uf, m, n, cx, a0, b0, w, p, q, k);
            } else if !pw && qw {
                let k = choose|k: int| 0 <= k < q.len() && q[k] == w;
                lemma_through_and_around(g, g2, uf, m, n, cx, a0, b0, w, q, p, k);
            } else {
                let k = choose|k: int| 0 <= k < p.len() && p[k] == w;
                let j = choose|j: int| 0 <= j < q.len() && q[j] == w;
                lemma_split(g2, p, k);
                lemma_split(g2, q, j);
                let p1 = p.subrange(0, k);
                let q1 = q.subrange(0, j);
                let p2 = p.subrange(k + 1, p.len() as int);
                let q2 = q.subrange(j + 1, q.len() as int);
                // before the wall
                if k == 0 {
                    lemma_unique_at(q, 0, j);
                    assert(p1 =~= q1);
                } else {
                    if j == 0 {
                        lemma_unique_at(p, 0, k);
                    }
                    lemma_sub_path(g2, p, 0, k);
                    lemma_sub_path(g2, q, 0, j);
                    assert(g2.passable(p[k - 1]) && adjacent(p[k - 1], p[k]));
                    assert(g2.passable(q[j - 1]) && adjacent(q[j - 1], q[j]));
                    lemma_wall_neighbor(g, g2, uf, m, n, cx, a0, b0, w, p[k - 1]);
                    lemma_wall_neighbor(g, g2, uf, m, n, cx, a0, b0, w, q[j - 1]);
                    lemma_side(g, g2, uf, m, n, cx, a0, b0, w, p1);
                    lemma_side(g, g2, uf, m, n, cx, a0, b0, w, q1);
                    assert(p1.last() == p[k - 1] && q1.last() == q[j - 1]);
                    assert(p1[0] == x && q1[0] == x);
                    lemma_same_side(g, g2, uf, m, n, cx, a0, b0, w, p1, q1);
                }
                // after the wall
                if k == p.len() - 1 {
                    lemma_unique_at(q, q.len() - 1, j);
                    assert(p2 =~= q2);
                } else {
                    if j == q.len() - 1 {
                        lemma_unique_at(p, p.len() - 1, k);
                    }
                    lemma_sub_path(g2, p, k + 1, p.len() as int);
                    lemma_sub_path(g2, q, j + 1, q.len() as int);
                    assert(g2.passable(p[k + 1]) && adjacent(p[(k + 1) - 1], p[k + 1]));
                    assert(g2.passable(q[j + 1]) && adjacent(q[(j + 1) - 1], q[j + 1]));
                    lemma_wall_neighbor(g, g2, uf, m, n, cx, a0, b0, w, p[k + 1]);
                    lemma_wall_neighbor(g, g2, uf, m, n, cx, a0, b0, w, q[j + 1]);
                    lemma_side(g, g2, uf, m, n, cx, a0, b0, w, p2);
                    lemma_side(g, g2, uf, m, n, cx, a0, b0, w, q2);
                    assert(p2[0] == p[k + 1] && q2[0] == q[j + 1]);
                    assert(p2.last() == y && q2.last() == y);
                    lemma_same_side(g, g2, uf, m, n, cx, a0, b0, w, p2, q2);
                }
                assert(p == p1 + seq![w] + p2);
                assert(q == q1 + seq![w] + q2);
            }
        }
    }
}

/// A route from an open cell through open cells, with no cell twice, is an
/// open path.
pub proof fn lemma_route_is_open_path(g: Maze, p: Seq<(int, int)>, s: (int, int), e: (int, int))
    requires
        g.is_route(p, s, e),
        g.passable(s),
        simple(p),
    ensures
        g.open_path(p),
{
    assert forall|i: int| 0 <= i < p.len() implies #[trigger] g.passable(p[i]) by {
        if i > 0 {
            assert(g.passable(p[i]) && adjacent(p[i - 1], p[i]));
        }
    }
    assert forall|i: int| 0 < i < p.len() implies #[trigger] adjacent(p[i - 1], p[i]) by {
        assert(g.passable(p[i]) && adjacent(p[i - 1], p[i]));
    }
}

/// A* and breadth-first search agree on a maze with at most one open path
/// between two cells (every generated maze of even size): each reports a
/// route without repeated cells from an open start, and there is only one
/// such route, so the two paths, and their lengths, are the same.
pub proof fn astar_agrees_with_bfs(g: Maze, s: (int, int), e: (int, int), astar_path: Seq<(int, int)>, bfs_path: Seq<(int, int)>)
    requires
        g.tree_like(),
        g.passable(s),
        g.is_route(astar_path, s, e),
        simple(astar_path),
        g.is_route(bfs_path, s, e),
        simple(bfs_path),
    ensures
        astar_path == bfs_path,
        astar_path.len() == bfs_path.len(),
{
    lemma_route_is_open_path(g, astar_path, s, e);
    lemma_route_is_open_path(g, bfs_path, s, e);
}

/// The bidirectional search agrees with breadth-first search on a maze with
/// at most one open path between two cells, when start and end are open:
/// its joined walk has no repeated cell, so it is that one path.
pub proof fn bidirectional_agrees_with_bfs(g: Maze, s: (int, int), e: (int, int), joined: Seq<(int, int)>, bfs_path: Seq<(int, int)>)
    requires
        g.tree_like(),
        g.passable(s),
        g.passable(e),
        g.links(joined, s, e),
        simple(joined),
        g.is_route(bfs_path, s, e),
        simple(bfs_path),
    ensures
        joined == bfs_path,
        joined.len() == bfs_path.len(),
{
    assert forall|i: int| 0 < i < joined.len() implies #[trigger] g.passable(joined[i]) && adjacent(joined[i - 1], joined[i]) by {
        assert(adjacent(joined[i - 1], joined[i]));
        if i < joined.len() - 1 {
            assert(g.passable(joined[i]));
        }
    }
    assert(g.is_route(joined, s, e));
    lemma_route_is_open_path(g, joined, s, e);
    lemma_route_is_open_path(g, bfs_path, s, e);
}

} // verus!
