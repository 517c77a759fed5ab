//! The maze grid: an `(m + 1) × (n + 1)` lattice of cell states.
use vstd::prelude::*;
use crate::point::{packed, Color, Direction};
use crate::union_find::UnionFind;
use crate::tree::structural;
use vstd::set_lib::*;
use rand::seq::SliceRandom;

verus! {

broadcast use vstd::seq_lib::to_multiset_contains;

/// Open corridor, not yet explored.
pub const PATH: i32 = 0;
/// Wall; also what every read outside the grid returns.
pub const WALL: i32 = 1;
/// Reached by a search (by the start side, in a bidirectional search).
pub const VISITED: i32 = 2;
/// Backtracked by depth-first search; reached by the end side of a bidirectional search.
pub const BACKTRACK: i32 = 3;
/// Start or end marker.
pub const START: i32 = 4;
/// On the final path.
pub const SOLUTION: i32 = 5;

/// The meaning of a cell's integer state.
#[derive(Debug, Clone, Copy, PartialEq, Eq, Structural)]
pub enum CellState {
    Wall,
    Path,
    Visited,
    Backtrack,
    Start,
    Solution,
}

pub open spec fn code_of(s: CellState) -> i32 {
    match s {
        CellState::Path => PATH,
        CellState::Wall => WALL,
        CellState::Visited => VISITED,
        CellState::Backtrack => BACKTRACK,
        CellState::Start => START,
        CellState::Solution => SOLUTION,
    }
}

impl CellState {
    /// The integer stored in the grid for this state.
    pub fn code(&self) -> (c: i32)
        ensures
            c == code_of(*self),
    {
        match self {
            CellState::Path => PATH,
            CellState::Wall => WALL,
            CellState::Visited => VISITED,
            CellState::Backtrack => BACKTRACK,
            CellState::Start => START,
            CellState::Solution => SOLUTION,
        }
    }

    /// The state that an integer encodes, if it encodes one.
    pub fn from_code(c: i32) -> (s: Option<CellState>)
        ensures
            s matches Some(st) ==> code_of(st) == c,
            s is None <==> !(0 <= c <= 5),
    {
        if c == PATH {
            Some(CellState::Path)
        } else if c == WALL {
            Some(CellState::Wall)
        } else if c == VISITED {
            Some(CellState::Visited)
        } else if c == BACKTRACK {
            Some(CellState::Backtrack)
        } else if c == START {
            Some(CellState::Start)
        } else if c == SOLUTION {
            Some(CellState::Solution)
        } else {
            None
        }
    }
}

/// Grid offset of a direction (`y` grows downwards).
pub open spec fn delta(d: Direction) -> (int, int) {
    match d {
        Direction::Stay => (0, 0),
        Direction::Up => (0, -1),
        Direction::Down => (0, 1),
        Direction::Left => (-1, 0),
        Direction::Right => (1, 0),
    }
}

/// The cell one step from `c` in direction `d`.
pub open spec fn moved(c: (int, int), d: Direction) -> (int, int) {
    (c.0 + delta(d).0, c.1 + delta(d).1)
}

/// Orthogonal neighbours.
pub open spec fn adjacent(a: (int, int), b: (int, int)) -> bool {
    (a.0 == b.0 && (a.1 - b.1 == 1 || b.1 - a.1 == 1)) || (a.1 == b.1 && (a.0 - b.0 == 1 || b.0
        - a.0 == 1))
}

/// The `k`-th direction in the fixed order in which every search scans
/// neighbours: down, right, up, left.
pub open spec fn scan_dir(k: int) -> Direction {
    if k == 0 {
        Direction::Down
    } else if k == 1 {
        Direction::Right
    } else if k == 2 {
        Direction::Up
    } else {
        Direction::Left
    }
}

/// The `k`-th direction of the scan order (`k < 4`).
pub fn scan_direction(k: usize) -> (d: Direction)
    requires
        k < 4,
    ensures
        d == scan_dir(k as int),
{
    if k == 0 {
        Direction::Down
    } else if k == 1 {
        Direction::Right
    } else if k == 2 {
        Direction::Up
    } else {
        Direction::Left
    }
}

/// The maze grid. `grid[y][x]` holds the state of cell `(x, y)`; cells with
/// `1 <= x <= m` and `1 <= y <= n` are inside the grid.
#[derive(Debug, Clone)]
pub struct Maze {
    pub sx: i32,
    pub sy: i32,
    /// Width in cells.
    pub m: i32,
    /// Height in cells.
    pub n: i32,
    /// Width in pixels.
    pub width: i32,
    /// Height in pixels.
    pub height: i32,
    pub grid: Vec<Vec<i32>>,
}

impl Maze {
    /// The grid holds `n + 1` rows of `m + 1` cells, and the number of
    /// cells fits an `i32` (step counts are `i32`).
    pub open spec fn wf(&self) -> bool {
        &&& 0 <= self.m
        &&& 0 <= self.n
        &&& (self.m + 1) * (self.n + 1) <= i32::MAX
        &&& self.grid@.len() == self.n + 1
        &&& forall|y: int| 0 <= y < self.grid@.len() ==> #[trigger] self.grid@[y]@.len() == self.m + 1
    }

    /// Number of cells of the lattice, border included.
    pub open spec fn size(&self) -> int {
        (self.m + 1) * (self.n + 1)
    }

    pub open spec fn in_bounds_spec(&self, c: (int, int)) -> bool {
        1 <= c.0 <= self.m && 1 <= c.1 <= self.n
    }

    /// The state of a cell: what the grid holds inside, a wall outside.
    pub open spec fn cell(&self, c: (int, int)) -> int {
        if self.in_bounds_spec(c) {
            self.grid@[c.1]@[c.0] as int
        } else {
            WALL as int
        }
    }

    /// An open, unexplored cell inside the grid.
    pub open spec fn passable(&self, c: (int, int)) -> bool {
        self.in_bounds_spec(c) && self.cell(c) == PATH
    }

    /// `p` walks from `s` to `e` by orthogonal steps, and every cell after
    /// the first is passable.
    pub open spec fn is_route(&self, p: Seq<(int, int)>, s: (int, int), e: (int, int)) -> bool {
        &&& p.len() >= 1
        &&& p[0] == s
        &&& p.last() == e
        &&& forall|i: int| 0 < i < p.len() ==> #[trigger] self.passable(p[i]) && adjacent(p[i - 1], p[i])
    }

    /// `p` walks from `s` to `e` by orthogonal steps through passable cells;
    /// unlike a route, its last cell need not be passable.
    pub open spec fn links(&self, p: Seq<(int, int)>, s: (int, int), e: (int, int)) -> bool {
        &&& p.len() >= 1
        &&& p[0] == s
        &&& p.last() == e
        &&& forall|i: int| 0 < i < p.len() ==> #[trigger] adjacent(p[i - 1], p[i])
        &&& forall|i: int| 0 < i < p.len() - 1 ==> #[trigger] self.passable(p[i])
    }

    /// Some walk links `s` to `e`.
    pub open spec fn linked(&self, s: (int, int), e: (int, int)) -> bool {
        exists|p: Seq<(int, int)>| self.links(p, s, e)
    }

    /// Some route leads from `s` to `e`.
    pub open spec fn reachable(&self, s: (int, int), e: (int, int)) -> bool {
        exists|p: Seq<(int, int)>| self.is_route(p, s, e)
    }

    /// Some route from `s` to `e` takes at most `k` steps.
    pub open spec fn within(&self, s: (int, int), e: (int, int), k: int) -> bool {
        exists|p: Seq<(int, int)>| self.is_route(p, s, e) && p.len() <= k + 1
    }

    /// The same grid geometry and start.
    pub open spec fn same_shape(&self, other: &Maze) -> bool {
        &&& self.sx == other.sx
        &&& self.sy == other.sy
        &&& self.m == other.m
        &&& self.n == other.n
        &&& self.width == other.width
        &&& self.height == other.height
        &&& self.grid@.len() == other.grid@.len()
        &&& forall|y: int| 0 <= y < self.grid@.len() ==> #[trigger] self.grid@[y]@.len() == other.grid@[y]@.len()
    }

    pub proof fn lemma_dims(&self)
        requires
            self.wf(),
        ensures
            1 <= self.m + 1 <= self.size(),
            1 <= self.n + 1 <= self.size(),
            self.size() <= i32::MAX,
    {
        assert(self.m + 1 <= (self.m + 1) * (self.n + 1) && self.n + 1 <= (self.m + 1) * (self.n
            + 1)) by (nonlinear_arith)
            requires
                0 <= self.m,
                0 <= self.n,
        ;
    }

    /// Same geometry and the same state in every cell.
    pub open spec fn same_cells(&self, other: &Maze) -> bool {
        &&& self.same_shape(other)
        &&& forall|c: (int, int)| #[trigger] self.cell(c) == other.cell(c)
    }

    /// A route extended by one step into an open neighbour is a route.
    pub proof fn lemma_route_push(&self, p: Seq<(int, int)>, s: (int, int), a: (int, int), c: (int, int))
        requires
            self.is_route(p, s, a),
            adjacent(a, c),
            self.passable(c),
        ensures
            self.is_route(p.push(c), s, c),
            self.reachable(s, c),
    {
        let q = p.push(c);
        assert forall|i: int| 0 < i < q.len() implies #[trigger] self.passable(q[i]) && adjacent(q[i - 1], q[i]) by {
            if i < p.len() {
                assert(q[i] == p[i] && q[i - 1] == p[i - 1]);
                assert(self.passable(p[i]));
            }
        }
    }

    /// Two routes joined through an open cell `w` form a route.
    pub proof fn lemma_route_join(
        &self,
        head_route: Seq<(int, int)>,
        x: (int, int),
        a: (int, int),
        w: (int, int),
        tail_route: Seq<(int, int)>,
        b: (int, int),
        y: (int, int),
    )
        requires
            self.is_route(head_route, x, a),
            self.is_route(tail_route, b, y),
            adjacent(a, w),
            adjacent(w, b),
            self.passable(w),
            self.passable(b),
        ensures
            self.is_route(head_route + seq![w] + tail_route, x, y),
            self.reachable(x, y),
    {
        let p = head_route + seq![w] + tail_route;
        assert forall|i: int| 0 < i < p.len() implies #[trigger] self.passable(p[i]) && adjacent(p[i - 1], p[i]) by {
            if i < head_route.len() {
                assert(p[i] == head_route[i] && p[i - 1] == head_route[i - 1]);
                assert(self.passable(head_route[i]));
            } else if i == head_route.len() {
                assert(p[i - 1] == head_route.last());
            } else if i == head_route.len() + 1 {
                assert(p[i] == tail_route[0]);
            } else {
                let j = i - head_route.len() - 1;
                assert(p[i] == tail_route[j] && p[i - 1] == tail_route[j - 1]);
                assert(self.passable(tail_route[j]));
            }
        }
        assert(p.last() == tail_route.last());
    }

    /// Every grid entry is a wall or open, and the open ones are logical
    /// cells, walls between two logical cells, the start `(1, 1)` or the end
    /// `(m - 1, n - 1)`. In particular the border and the cells with both
    /// coordinates even stay walls (unless one is the end).
    pub open spec fn carved_only(&self) -> bool {
        forall|r: int, k: int| 0 <= r < self.grid@.len() && 0 <= k < self.grid@[r]@.len() ==>
            #[trigger] self.grid@[r]@[k] == WALL || (self.grid@[r]@[k] == PATH && (structural(self.m as int, self.n as int, (k, r))
                || (k, r) == (1int, 1int) || (k, r) == (self.m - 1, self.n - 1)))
    }

    /// The walls between logical cells that are open.
    pub open spec fn open_walls(&self) -> Set<(int, int)> {
        Set::new(|w: (int, int)| wall_slot(self.m as int, self.n as int, w) && self.cell(w) == PATH)
    }

    /// Mazes with the same cells have the same routes.
    pub proof fn lemma_same_routes(&self, other: &Maze)
        requires
            self.same_cells(other),
        ensures
            forall|p: Seq<(int, int)>, s: (int, int), e: (int, int)|
                #![trigger self.is_route(p, s, e)]
                #![trigger other.is_route(p, s, e)]
                self.is_route(p, s, e) == other.is_route(p, s, e),
            forall|s: (int, int), e: (int, int)| #[trigger] self.reachable(s, e) == other.reachable(s, e),
    {
        assert forall|p: Seq<(int, int)>, s: (int, int), e: (int, int)| #[trigger] self.is_route(p, s, e) == other.is_route(p, s, e) by {
            assert forall|i: int| 0 < i < p.len() implies #[trigger] self.passable(p[i]) == other.passable(p[i]) by {
                assert(self.cell(p[i]) == other.cell(p[i]));
            }
            if self.is_route(p, s, e) {
                assert forall|i: int| 0 < i < p.len() implies #[trigger] other.passable(p[i]) && adjacent(p[i - 1], p[i]) by {
                    assert(self.passable(p[i]));
                }
            }
            if other.is_route(p, s, e) {
                assert forall|i: int| 0 < i < p.len() implies #[trigger] self.passable(p[i]) && adjacent(p[i - 1], p[i]) by {
                    assert(other.passable(p[i]));
                }
            }
        }
        assert forall|s: (int, int), e: (int, int)| #[trigger] self.reachable(s, e) == other.reachable(s, e) by {
            if self.reachable(s, e) {
                let p = choose|p: Seq<(int, int)>| self.is_route(p, s, e);
                assert(other.is_route(p, s, e));
            }
            if other.reachable(s, e) {
                let p = choose|p: Seq<(int, int)>| other.is_route(p, s, e);
                assert(self.is_route(p, s, e));
            }
        }
    }

    /// Mazes with the same cells link the same cells.
    pub proof fn lemma_same_links(&self, other: &Maze)
        requires
            self.same_cells(other),
        ensures
            forall|p: Seq<(int, int)>, s: (int, int), e: (int, int)| #[trigger] self.links(p, s, e) == other.links(p, s, e),
            forall|s: (int, int), e: (int, int)| #[trigger] self.linked(s, e) == other.linked(s, e),
    {
        assert forall|p: Seq<(int, int)>, s: (int, int), e: (int, int)| #[trigger] self.links(p, s, e) == other.links(p, s, e) by {
            if self.links(p, s, e) {
                assert forall|i: int| 0 < i < p.len() - 1 implies #[trigger] other.passable(p[i]) by {
                    assert(self.passable(p[i]));
                    assert(self.cell(p[i]) == other.cell(p[i]));
                }
            }
            if other.links(p, s, e) {
                assert forall|i: int| 0 < i < p.len() - 1 implies #[trigger] self.passable(p[i]) by {
                    assert(other.passable(p[i]));
                    assert(self.cell(p[i]) == other.cell(p[i]));
                }
            }
        }
        assert forall|s: (int, int), e: (int, int)| #[trigger] self.linked(s, e) == other.linked(s, e) by {
            if self.linked(s, e) {
                let p = choose|p: Seq<(int, int)>| self.links(p, s, e);
                assert(other.links(p, s, e));
            }
            if other.linked(s, e) {
                let p = choose|p: Seq<(int, int)>| other.links(p, s, e);
                assert(self.links(p, s, e));
            }
        }
    }

    /// A deep copy: same geometry, same cells.
    pub fn duplicate(&self) -> (r: Maze)
        requires
            self.wf(),
        ensures
            r.wf(),
            r.same_cells(self),
            r.grid@.len() == self.grid@.len(),
            forall|y: int| 0 <= y < self.grid@.len() ==> #[trigger] r.grid@[y]@ == self.grid@[y]@,
    {
        let mut grid: Vec<Vec<i32>> = Vec::new();
        let mut j: usize = 0;
        while j < self.grid.len()
            invariant
                j <= self.grid@.len(),
                grid@.len() == j,
                forall|y: int| 0 <= y < j ==> #[trigger] grid@[y]@ == self.grid@[y]@,
            decreases self.grid@.len() - j,
        {
            let mut row: Vec<i32> = Vec::new();
            let mut i: usize = 0;
            while i < self.grid[j].len()
                invariant
                    j < self.grid@.len(),
                    i <= self.grid@[j as int]@.len(),
                    row@ == self.grid@[j as int]@.subrange(0, i as int),
                decreases self.grid@[j as int]@.len() - i,
            {
                row.push(self.grid[j][i]);
                i = i + 1;
                assert(row@ =~= self.grid@[j as int]@.subrange(0, i as int));
            }
            assert(row@ =~= self.grid@[j as int]@);
            grid.push(row);
            j = j + 1;
        }
        let r = Maze { sx: self.sx, sy: self.sy, m: self.m, n: self.n, width: self.width, height: self.height, grid };
        assert forall|c: (int, int)| #[trigger] r.cell(c) == self.cell(c) by {
            if r.in_bounds_spec(c) {
                assert(r.grid@[c.1]@ == self.grid@[c.1]@);
            }
        }
        r
    }

    /// Flat index of an inside cell.
    pub open spec fn idx(&self, c: (int, int)) -> int {
        c.1 * (self.m + 1) + c.0
    }

    /// Whether `(x, y)` lies inside the grid.
    pub fn in_bounds(&self, x: i32, y: i32) -> (r: bool)
        ensures
            r == self.in_bounds_spec((x as int, y as int)),
    {
        x >= 1 && x <= self.m && y >= 1 && y <= self.n
    }

    /// Whether `(x, y)` lies inside the grid and is open.
    pub fn is_passable(&self, x: i32, y: i32) -> (r: bool)
        requires
            self.wf(),
        ensures
            r == self.passable((x as int, y as int)),
    {
        self.in_bounds(x, y) && self.grid[y as usize][x as usize] == PATH
    }

    /// The state of `(x, y)`; a wall outside the grid.
    pub fn get_cell(&self, x: i32, y: i32) -> (v: i32)
        requires
            self.wf(),
        ensures
            v as int == self.cell((x as int, y as int)),
    {
        if self.in_bounds(x, y) {
            self.grid[y as usize][x as usize]
        } else {
            WALL
        }
    }

    /// Writes the state of `(x, y)`; a write outside the grid does nothing.
    pub fn set_cell(&mut self, x: i32, y: i32, value: i32)
        requires
            old(self).wf(),
        ensures
            final(self).wf(),
            final(self).same_shape(old(self)),
            forall|c: (int, int)| #[trigger]
                final(self).cell(c) == if c == (x as int, y as int) && old(self).in_bounds_spec(c) {
                    value as int
                } else {
                    old(self).cell(c)
                },
            !old(self).in_bounds_spec((x as int, y as int)) ==> *final(self) == *old(self),
            forall|r: int, k: int| 0 <= r < old(self).grid@.len() && 0 <= k < old(self).grid@[r]@.len() ==> #[trigger] final(self).grid@[r]@[k] == if r == y && k == x && old(self).in_bounds_spec((x as int, y as int)) {
                value
            } else {
                old(self).grid@[r]@[k]
            },
    {
        if self.in_bounds(x, y) {
            let ghost before = *self;
            let mut row: Vec<i32> = Vec::new();
            std::mem::swap(&mut row, &mut self.grid[y as usize]);
            row.set(x as usize, value);
            self.grid.set(y as usize, row);
            assert forall|c: (int, int)| #[trigger]
                self.cell(c) == if c == (x as int, y as int) && before.in_bounds_spec(c) {
                    value as int
                } else {
                    before.cell(c)
                } by {
                if self.in_bounds_spec(c) && c.1 != y as int {
                    assert(self.grid@[c.1] == before.grid@[c.1]);
                }
            }
            assert forall|r: int, k: int| 0 <= r < before.grid@.len() && 0 <= k < before.grid@[r]@.len() implies #[trigger] self.grid@[r]@[k] == if r == y && k == x {
                value
            } else {
                before.grid@[r]@[k]
            } by {
                if r != y as int {
                    assert(self.grid@[r] == before.grid@[r]);
                }
            }
        }
    }

    /// Paints the maze into a `buf_width × buf_height` pixel buffer (row
    /// after row, `0x00RRGGBB`): each cell becomes a block of
    /// `buf_width / (m + 1)` by `buf_height / (n + 1)` pixels in the colour
    /// of its state. Pixels right of or below the last block are left as
    /// they were.
    pub fn render(&self, buffer: &mut Vec<u32>, buf_width: usize, buf_height: usize)
        requires
            self.wf(),
            self.painted_end(buf_width as int, buf_height as int) <= old(buffer)@.len(),
        ensures
            final(buffer)@.len() == old(buffer)@.len(),
            forall|py: int, px: int| 0 <= py < buf_height && 0 <= px < buf_width && py * buf_width + px < old(buffer)@.len() ==> #[trigger] final(buffer)@[py * buf_width + px] == {
                let cw = buf_width as int / (self.m + 1);
                let ch = buf_height as int / (self.n + 1);
                if py < (self.n + 1) * ch && px < (self.m + 1) * cw {
                    packed(shade(self.grid@[py / ch]@[px / cw] as int)) as u32
                } else {
                    old(buffer)@[py * buf_width + px]
                }
            },
            forall|i: int| self.painted_end(buf_width as int, buf_height as int) <= i < old(buffer)@.len() ==> #[trigger] final(buffer)@[i] == old(buffer)@[i],
    {
        proof {
            self.lemma_dims();
        }
        let cell_w = buf_width / ((self.m + 1) as usize);
        let cell_h = buf_height / ((self.n + 1) as usize);
        let ghost w = buf_width as int;
        let ghost h = buf_height as int;
        let ghost before = buffer@;
        proof {
            assert((self.n + 1) * (cell_h as int) <= buf_height && (self.m + 1) * (cell_w as int) <= buf_width) by (nonlinear_arith)
                requires
                    cell_h as int == buf_height as int / (self.n + 1),
                    cell_w as int == buf_width as int / (self.m + 1),
                    self.n + 1 >= 1,
                    self.m + 1 >= 1,
            ;
        }
        let hi_y = ((self.n + 1) as usize) * cell_h;
        let hi_x = ((self.m + 1) as usize) * cell_w;
        let mut y: usize = 0;
        while y < hi_y
            invariant
                self.wf(),
                y <= hi_y <= buf_height,
                hi_x <= buf_width,
                hi_y as int == (self.n + 1) * (cell_h as int),
                hi_x as int == (self.m + 1) * (cell_w as int),
                cell_w as int == buf_width as int / (self.m + 1),
                cell_h as int == buf_height as int / (self.n + 1),
                w == buf_width,
                h == buf_height,
                self.painted_end(w, h) <= before.len(),
                buffer@.len() == before.len(),
                forall|py: int, px: int| 0 <= py < h && 0 <= px < w && py * w + px < before.len() ==> #[trigger] buffer@[py * w + px] == if py < y && px < hi_x {
                    packed(shade(self.grid@[py / cell_h as int]@[px / cell_w as int] as int)) as u32
                } else {
                    before[py * w + px]
                },
                forall|i: int| self.painted_end(w, h) <= i < before.len() ==> #[trigger] buffer@[i] == before[i],
            decreases hi_y - y,
        {
            let mut x: usize = 0;
            while x < hi_x
                invariant
                    self.wf(),
                    y < hi_y <= buf_height,
                    x <= hi_x <= buf_width,
                    hi_y as int == (self.n + 1) * (cell_h as int),
                    hi_x as int == (self.m + 1) * (cell_w as int),
                    cell_w as int == buf_width as int / (self.m + 1),
                    cell_h as int == buf_height as int / (self.n + 1),
                    w == buf_width,
                    h == buf_height,
                    self.painted_end(w, h) <= before.len(),
                    buffer@.len() == before.len(),
                    forall|py: int, px: int| 0 <= py < h && 0 <= px < w && py * w + px < before.len() ==> #[trigger] buffer@[py * w + px] == if (py < y && px < hi_x) || (py == y && px < x) {
                        packed(shade(self.grid@[py / cell_h as int]@[px / cell_w as int] as int)) as u32
                    } else {
                        before[py * w + px]
                    },
                    forall|i: int| self.painted_end(w, h) <= i < before.len() ==> #[trigger] buffer@[i] == before[i],
                decreases hi_x - x,
            {
                proof {
                    assert(cell_h > 0 && cell_w > 0) by (nonlinear_arith)
                        requires
                            (y as int) < (self.n + 1) * (cell_h as int),
                            (x as int) < (self.m + 1) * (cell_w as int),
                            self.n + 1 >= 1,
                            self.m + 1 >= 1,
                    ;
                }
                let cy = y / cell_h;
                let cx = x / cell_w;
                proof {
                    assert(cy <= self.n && cx <= self.m) by (nonlinear_arith)
                        requires
                            (y as int) < (self.n + 1) * (cell_h as int),
                            (x as int) < (self.m + 1) * (cell_w as int),
                            cy == y / cell_h,
                            cx == x / cell_w,
                            cell_h > 0,
                            cell_w > 0,
                    ;
                    assert(self.grid@[cy as int]@.len() == self.m + 1);
                    lemma_pixel(w, h, y as int, x as int, y as int, x as int);
                    assert((y as int) * w + (x as int) < self.painted_end(w, h)) by (nonlinear_arith)
                        requires
                            (y as int) < (hi_y as int),
                            (x as int) < (hi_x as int),
                            0 <= w,
                            self.painted_end(w, h) == (hi_y as int - 1) * w + hi_x as int,
                    ;
                }
                let color = state_color(self.grid[cy][cx]).to_u32();
                let ghost prev = buffer@;
                let blen = buffer.len();
                let idx = y * buf_width + x;
                buffer.set(idx, color);
                proof {
                    assert forall|py: int, px: int| 0 <= py < h && 0 <= px < w && py * w + px < before.len() implies #[trigger] buffer@[py * w + px] == if (py < y && px < hi_x) || (py == y && px < x + 1) {
                        packed(shade(self.grid@[py / cell_h as int]@[px / cell_w as int] as int)) as u32
                    } else {
                        before[py * w + px]
                    } by {
                        lemma_pixel(w, h, py, px, y as int, x as int);
                        assert(prev[py * w + px] == if (py < y && px < hi_x) || (py == y && px < x) {
                            packed(shade(self.grid@[py / cell_h as int]@[px / cell_w as int] as int)) as u32
                        } else {
                            before[py * w + px]
                        });
                    }
                    assert forall|i: int| self.painted_end(w, h) <= i < before.len() implies #[trigger] buffer@[i] == before[i] by {
                        assert(prev[i] == before[i]);
                    }
                }
                x = x + 1;
            }
            y = y + 1;
        }
    }

    /// How far into a `bw × bh` buffer `render` paints: up to the last
    /// pixel of the last whole block.
    pub open spec fn painted_end(&self, bw: int, bh: int) -> int {
        let hi_y = (self.n + 1) * (bh / (self.n + 1));
        let hi_x = (self.m + 1) * (bw / (self.m + 1));
        if hi_y == 0 || hi_x == 0 {
            0
        } else {
            (hi_y - 1) * bw + hi_x
        }
    }

    /// The start cell.
    pub fn start(&self) -> (r: (i32, i32))
        ensures
            r == (self.sx, self.sy),
    {
        (self.sx, self.sy)
    }

    /// The end cell: the bottom-right logical cell `(m - 1, n - 1)`.
    pub fn end(&self) -> (r: (i32, i32))
        requires
            self.m >= i32::MIN + 1,
            self.n >= i32::MIN + 1,
        ensures
            r.0 == self.m - 1,
            r.1 == self.n - 1,
    {
        (self.m - 1, self.n - 1)
    }

    /// The neighbour of `(x, y)` in direction `d`, when it lies inside the grid.
    pub fn neighbor(&self, x: i32, y: i32, d: Direction) -> (r: Option<(i32, i32)>)
        ensures
            r is Some <==> self.in_bounds_spec(moved((x as int, y as int), d)),
            r matches Some(c) ==> (c.0 as int, c.1 as int) == moved((x as int, y as int), d),
    {
        let (dx, dy): (i64, i64) = match d {
            Direction::Stay => (0, 0),
            Direction::Up => (0, -1),
            Direction::Down => (0, 1),
            Direction::Left => (-1, 0),
            Direction::Right => (1, 0),
        };
        let nx: i64 = x as i64 + dx;
        let ny: i64 = y as i64 + dy;
        if nx >= 1 && nx <= self.m as i64 && ny >= 1 && ny <= self.n as i64 {
            Some((nx as i32, ny as i32))
        } else {
            None
        }
    }
}

/// A candidate passage between two horizontally or vertically adjacent
/// logical cells.
pub type Edge = ((i32, i32), (i32, i32));

/// `a` and `b` are logical cells (odd coordinates) of a `m × n` grid that
/// lie two apart in a row or a column, `b` after `a`.
pub open spec fn pair_ok(m: int, n: int, a: (int, int), b: (int, int)) -> bool {
    &&& a.0 % 2 == 1
    &&& a.1 % 2 == 1
    &&& 1 <= a.0 < m
    &&& 1 <= a.1 < n
    &&& ((b.0 == a.0 + 2 && b.1 == a.1 && b.0 < m) || (b.0 == a.0 && b.1 == a.1 + 2 && b.1 < n))
}

pub open spec fn end_a(e: Edge) -> (int, int) {
    (e.0.0 as int, e.0.1 as int)
}

pub open spec fn end_b(e: Edge) -> (int, int) {
    (e.1.0 as int, e.1.1 as int)
}

/// `e` joins two neighbouring logical cells.
pub open spec fn edge_ok(m: int, n: int, e: Edge) -> bool {
    pair_ok(m, n, end_a(e), end_b(e))
}

/// A logical cell: both coordinates odd, inside the `m × n` grid.
pub open spec fn logical(m: int, n: int, c: (int, int)) -> bool {
    c.0 % 2 == 1 && c.1 % 2 == 1 && 1 <= c.0 < m && 1 <= c.1 < n
}

/// A wall between two logical cells: between two cells of a row (even
/// `x`) or of a column (even `y`).
pub open spec fn wall_slot(m: int, n: int, w: (int, int)) -> bool {
    ||| (w.0 % 2 == 0 && w.1 % 2 == 1 && 2 <= w.0 && w.0 + 1 < m && 1 <= w.1 < n)
    ||| (w.0 % 2 == 1 && w.1 % 2 == 0 && 1 <= w.0 < m && 2 <= w.1 && w.1 + 1 < n)
}

/// The two logical cells that a wall separates.
pub open spec fn wall_ends(w: (int, int)) -> ((int, int), (int, int)) {
    if w.0 % 2 == 0 {
        ((w.0 - 1, w.1), (w.0 + 1, w.1))
    } else {
        ((w.0, w.1 - 1), (w.0, w.1 + 1))
    }
}

/// Union-find index of a logical cell, `cx` cells to a row.
pub open spec fn lidx(cx: int, c: (int, int)) -> int {
    (c.1 / 2) * cx + c.0 / 2
}

/// Relies on `rand::seq::SliceRandom::shuffle` driven by `rand::thread_rng`:
/// it only swaps elements, so the result is a permutation of the input.
#[verifier::external_body]
fn shuffle_edges(edges: &mut Vec<Edge>)
    ensures
        final(edges)@.to_multiset() == old(edges)@.to_multiset(),
        final(edges)@.len() == old(edges)@.len(),
{
    edges.shuffle(&mut rand::thread_rng());
}

impl Maze {
    /// A maze of the default size, 56 × 56 cells on 560 × 560 pixels.
    pub fn new() -> (r: Maze)
        ensures
            r.wf(),
            r.m == 56 && r.n == 56 && r.sx == 1 && r.sy == 1,
            r.width == 560 && r.height == 560,
    {
        Self::with_size(56, 56, 560, 560)
    }

    /// A freshly generated perfect maze of `m × n` cells: the open cells
    /// form a spanning tree over the logical cells, which is to say that
    /// exactly `(m / 2) * (n / 2) - 1` walls between logical cells are open
    /// and every logical cell can be reached from every other. When both
    /// sizes are even (so the end is a logical cell too) no two open paths
    /// share both ends.
    pub fn with_size(m: i32, n: i32, width: i32, height: i32) -> (r: Maze)
        requires
            1 <= m,
            1 <= n,
            (m + 1) * (n + 1) <= i32::MAX,
        ensures
            r.wf(),
            r.m == m && r.n == n && r.sx == 1 && r.sy == 1,
            r.width == width && r.height == height,
            r.cell((1, 1)) == PATH,
            r.in_bounds_spec((m - 1, n - 1)) ==> r.cell((m - 1, n - 1)) == PATH,
            m >= 2 && n >= 2 ==> r.open_walls().len() == (m / 2) * (n / 2) - 1,
            forall|a: (int, int), b: (int, int)| logical(m as int, n as int, a) && logical(m as int, n as int, b) ==> #[trigger] r.reachable(a, b),
            m % 2 == 0 && n % 2 == 0 ==> r.tree_like(),
            m % 2 == 0 && n % 2 == 0 ==> r.open_walls() == Set::new(
                |c: (int, int)| 1 <= c.0 < m && 1 <= c.1 < n && (c.0 % 2 == 0) != (c.1 % 2 == 0) && r.cell(c) == PATH,
            ),
            r.carved_only(),
            forall|c: (int, int)| #[trigger] r.passable(c) && structural(m as int, n as int, c) ==> r.reachable((1, 1), c),
            m % 2 == 0 && n % 2 == 0 ==> forall|c: (int, int)| #[trigger] r.passable(c) ==> r.reachable((1, 1), c),
    {
        assert(m + 1 <= (m + 1) * (n + 1) && n + 1 <= (m + 1) * (n + 1)) by (nonlinear_arith)
            requires
                1 <= m,
                1 <= n,
        ;
        let mut grid: Vec<Vec<i32>> = Vec::new();
        let mut j: usize = 0;
        while j < (n + 1) as usize
            invariant
                1 <= n,
                1 <= m,
                m + 1 <= i32::MAX,
                n + 1 <= i32::MAX,
                (m + 1) * (n + 1) <= i32::MAX,
                j <= n + 1,
                grid@.len() == j,
                forall|y: int, x: int| 0 <= y < j && 0 <= x < m + 1 ==> #[trigger] grid@[y]@[x] == WALL,
                forall|y: int| 0 <= y < j ==> #[trigger] grid@[y]@.len() == m + 1,
            decreases (n + 1) as usize - j,
        {
            grid.push(vec![WALL; (m + 1) as usize]);
            j = j + 1;
        }
        let mut maze = Maze { sx: 1, sy: 1, m, n, width, height, grid };
        assert forall|r: int, k: int| 0 <= r < maze.grid@.len() && 0 <= k < maze.grid@[r]@.len() implies #[trigger] maze.grid@[r]@[k] == WALL by {}
        assert(maze.grid@.len() == n + 1);
        assert(maze.wf());
        assert forall|c: (int, int)| #[trigger] maze.cell(c) == WALL by {
            if maze.in_bounds_spec(c) {
                assert(maze.grid@[c.1]@[c.0] == WALL);
            }
        }
        maze.generate();
        proof {
            if m % 2 == 0 && n % 2 == 0 {
                assert(maze.open_walls() =~= Set::new(
                    |c: (int, int)| 1 <= c.0 < m && 1 <= c.1 < n && (c.0 % 2 == 0) != (c.1 % 2 == 0) && maze.cell(c) == PATH,
                ));
                assert forall|c: (int, int)| #[trigger] maze.passable(c) implies maze.reachable((1, 1), c) by {
                    assert(maze.grid@[c.1]@[c.0] == PATH);
                    assert(structural(m as int, n as int, c));
                }
            }
        }
        maze
    }

    /// Randomised Kruskal: logical cells sit at odd coordinates; the walls
    /// between them are taken down in random order whenever they separate
    /// two different components. Start and end are opened first.
    #[verifier::rlimit(100)]
    fn generate(&mut self)
        requires
            old(self).wf(),
            old(self).sx == 1,
            old(self).sy == 1,
            1 <= old(self).m,
            1 <= old(self).n,
            forall|c: (int, int)| #[trigger] old(self).cell(c) == WALL,
            forall|r: int, k: int| 0 <= r < old(self).grid@.len() && 0 <= k < old(self).grid@[r]@.len() ==> #[trigger] old(self).grid@[r]@[k] == WALL,
        ensures
            final(self).carved_only(),
            forall|c: (int, int)| #[trigger] final(self).passable(c) && structural(final(self).m as int, final(self).n as int, c) ==> final(self).reachable((1, 1), c),
            final(self).wf(),
            final(self).same_shape(old(self)),
            final(self).cell((1, 1)) == PATH,
            final(self).in_bounds_spec((final(self).m - 1, final(self).n - 1)) ==> final(self).cell((final(self).m - 1, final(self).n - 1)) == PATH,
            final(self).m >= 2 && final(self).n >= 2 ==> final(self).open_walls().len() == (final(self).m / 2) * (final(self).n / 2) - 1,
            forall|a: (int, int), b: (int, int)| logical(final(self).m as int, final(self).n as int, a) && logical(final(self).m as int, final(self).n as int, b)
                ==> #[trigger] final(self).reachable(a, b),
            final(self).m % 2 == 0 && final(self).n % 2 == 0 ==> final(self).tree_like(),
    {
        let ghost orig = *self;
        let cells_x = (self.m / 2) as usize;
        let cells_y = (self.n / 2) as usize;
        let m = self.m;
        let n = self.n;
        let mut edges: Vec<Edge> = Vec::new();
        let mut y: i32 = 1;
        while y < n
            invariant
                self.m == m,
                self.n == n,
                1 <= m,
                1 <= n,
                (m + 1) * (n + 1) <= i32::MAX,
                1 <= y <= n + 1,
                y % 2 == 1,
                forall|k: int| 0 <= k < edges@.len() ==> #[trigger] edge_ok(m as int, n as int, edges@[k]),
                forall|e: Edge| edge_ok(m as int, n as int, e) && e.0.1 < y ==> #[trigger] edges@.contains(e),
            decreases n + 1 - y,
        {
            let mut x: i32 = 1;
            while x < m
                invariant
                    1 <= m,
                    1 <= n,
                    (m + 1) * (n + 1) <= i32::MAX,
                    1 <= y < n,
                    y % 2 == 1,
                    1 <= x <= m + 1,
                    x % 2 == 1,
                    forall|k: int| 0 <= k < edges@.len() ==> #[trigger] edge_ok(m as int, n as int, edges@[k]),
                    forall|e: Edge| edge_ok(m as int, n as int, e) && (e.0.1 < y || (e.0.1 == y && e.0.0 < x)) ==> #[trigger] edges@.contains(e),
                decreases m + 1 - x,
            {
                let ghost before = edges@;
                if x + 2 < m {
                    edges.push(((x, y), (x + 2, y)));
                }
                let ghost mid = edges@;
                if y + 2 < n {
                    edges.push(((x, y), (x, y + 2)));
                }
                proof {
                    assert forall|e: Edge| edge_ok(m as int, n as int, e) && (e.0.1 < y || (e.0.1 == y && e.0.0 < x + 2)) implies #[trigger] edges@.contains(e) by {
                        if e.0.1 < y || (e.0.1 == y && e.0.0 < x) {
                            assert(before.contains(e));
                            let j = choose|j: int| 0 <= j < before.len() && before[j] == e;
                            assert(edges@[j] == e);
                        } else if e.1.0 == e.0.0 + 2 {
                            assert(edges@[before.len() as int] == e);
                        } else {
                            assert(edges@[mid.len() as int] == e);
                        }
                    }
                }
                x = x + 2;
            }
            y = y + 2;
        }
        let ghost listed = edges@;
        shuffle_edges(&mut edges);
        proof {
            assert forall|k: int| 0 <= k < edges@.len() implies #[trigger] edge_ok(m as int, n as int, edges@[k]) by {
                assert(edges@.to_multiset().count(edges@[k]) > 0);
                assert(listed.to_multiset().count(edges@[k]) > 0);
                assert(listed.contains(edges@[k]));
            }
            assert forall|e: Edge| edge_ok(m as int, n as int, e) implies #[trigger] edges@.contains(e) by {
                assert(listed.contains(e));
                assert(listed.to_multiset().count(e) > 0);
                assert(edges@.to_multiset().count(e) > 0);
            }
            assert(cells_x * cells_y <= m * n) by (nonlinear_arith)
                requires
                    cells_x == m / 2,
                    cells_y == n / 2,
                    1 <= m,
                    1 <= n,
            ;
            assert(m * n <= (m + 1) * (n + 1)) by (nonlinear_arith)
                requires
                    1 <= m,
                    1 <= n,
            ;
        }
        assert(2 * (m + 1) <= (m + 1) * (n + 1) && 2 * (n + 1) <= (m + 1) * (n + 1)) by (nonlinear_arith)
            requires
                1 <= m,
                1 <= n,
        ;
        let ghost cx = cells_x as int;
        let ghost total = cells_x * cells_y;
        let mut uf = UnionFind::new(cells_x * cells_y);
        proof {
            assert forall|i: int| 0 <= i < total implies #[trigger] uf.roots().contains(i) by {
                assert(uf.root(i) == i);
            }
            assert(uf.roots() =~= set_int_range(0, total as int));
            lemma_int_range(0, total as int);
        }
        let ghost walled = *self;
        self.set_cell(1, 1, PATH);
        let ghost one_open = *self;
        self.set_cell(m - 1, n - 1, PATH);
        proof {
            assert forall|r: int, k: int| 0 <= r < self.grid@.len() && 0 <= k < self.grid@[r]@.len() implies
                #[trigger] self.grid@[r]@[k] == WALL || (self.grid@[r]@[k] == PATH && (structural(self.m as int, self.n as int, (k, r))
                    || (k, r) == (1int, 1int) || (k, r) == (self.m - 1, self.n - 1))) by {
                assert(walled.grid@[r]@[k] == orig.grid@[r]@[k]);
                assert(one_open.grid@[r]@[k] == if r == 1 && k == 1 && walled.in_bounds_spec((1, 1)) { PATH } else { walled.grid@[r]@[k] });
            }
        }
        let ghost mut unions: int = 0;
        let ghost mut carved: Set<(int, int)> = Set::empty();
        let ghost even = m % 2 == 0 && n % 2 == 0;
        proof {
            assert forall|a: (int, int), b: (int, int)| logical(m as int, n as int, a) && logical(m as int, n as int, b)
                && uf.root(lidx(cx, a)) == uf.root(lidx(cx, b)) implies #[trigger] self.reachable(a, b) by {
                lemma_lidx(cx, cells_y as int, m as int, n as int, a);
                lemma_lidx(cx, cells_y as int, m as int, n as int, b);
                assert(uf.root(lidx(cx, a)) == lidx(cx, a));
                assert(uf.root(lidx(cx, b)) == lidx(cx, b));
                lemma_lidx_inj(cx, cells_y as int, m as int, n as int, a, b);
                assert(self.is_route(seq![a], a, b));
            }
            assert forall|x: (int, int), y: (int, int)| logical(m as int, n as int, x) && !self.passable(x) && logical(m as int, n as int, y)
                && #[trigger] uf.root(lidx(cx, y)) == #[trigger] uf.root(lidx(cx, x)) implies y == x by {
                lemma_lidx(cx, cells_y as int, m as int, n as int, x);
                lemma_lidx(cx, cells_y as int, m as int, n as int, y);
                lemma_lidx_inj(cx, cells_y as int, m as int, n as int, x, y);
            }
            if even {
                assert forall|c: (int, int)| #[trigger] self.passable(c) implies structural(m as int, n as int, c) by {
                    assert(c == (1int, 1int) || c == (m - 1, n - 1));
                }
                assert forall|p: Seq<(int, int)>| #[trigger] self.open_path(p) implies p.len() == 1 by {
                    if p.len() > 1 {
                        assert(self.passable(p[0]) && self.passable(p[1]) && adjacent(p[1 - 1], p[1]));
                        assert(p[0] != p[1]);
                    }
                }
                assert forall|p: Seq<(int, int)>, q: Seq<(int, int)>|
                    #[trigger] self.open_path(p) && #[trigger] self.open_path(q) && p[0] == q[0] && p.last() == q.last() implies p == q by {
                    assert(p =~= q);
                }
            }
        }
        let mut k: usize = 0;
        while k < edges.len()
            invariant
                self.wf(),
                self.same_shape(&orig),
                self.m == m,
                self.n == n,
                cells_x == m / 2,
                cells_y == n / 2,
                cx == cells_x,
                total == cells_x * cells_y,
                cells_x * cells_y <= usize::MAX,
                2 * (m + 1) <= i32::MAX,
                2 * (n + 1) <= i32::MAX,
                k <= edges@.len(),
                uf.wf(),
                uf.len() == total,
                forall|j: int| 0 <= j < edges@.len() ==> #[trigger] edge_ok(m as int, n as int, edges@[j]),
                forall|e: Edge| edge_ok(m as int, n as int, e) ==> #[trigger] edges@.contains(e),
                self.cell((1, 1)) == PATH,
                self.in_bounds_spec((m - 1, n - 1)) ==> self.cell((m - 1, n - 1)) == PATH,
                forall|c: (int, int)| wall_slot(m as int, n as int, c) ==> (#[trigger] self.cell(c) == PATH <==> carved.contains(c)),
                forall|c: (int, int)| #[trigger] carved.contains(c) ==> wall_slot(m as int, n as int, c)
                    && uf.root(lidx(cx, wall_ends(c).0)) == uf.root(lidx(cx, wall_ends(c).1)),
                carved.finite(),
                carved.len() == unions,
                unions + uf.roots().len() == total,
                uf.roots().finite(),
                forall|j: int| 0 <= j < k ==> uf.root(lidx(cx, end_a(#[trigger] edges@[j]))) == uf.root(lidx(cx, end_b(edges@[j]))),
                forall|a: (int, int), b: (int, int)| logical(m as int, n as int, a) && logical(m as int, n as int, b)
                    && uf.root(lidx(cx, a)) == uf.root(lidx(cx, b)) ==> #[trigger] self.reachable(a, b),
                even == (m % 2 == 0 && n % 2 == 0),
                even ==> forall|c: (int, int)| #[trigger] self.passable(c) ==> structural(m as int, n as int, c),
                forall|x: (int, int), y: (int, int)| logical(m as int, n as int, x) && !self.passable(x) && logical(m as int, n as int, y)
                    && #[trigger] uf.root(lidx(cx, y)) == #[trigger] uf.root(lidx(cx, x)) ==> y == x,
                even ==> self.tree_like(),
                self.carved_only(),
            decreases edges.len() - k,
        {
            let ((x1, y1), (x2, y2)) = edges[k];
            assert(edge_ok(m as int, n as int, edges@[k as int]));
            let i1 = Self::cell_idx(x1, y1, cells_x, cells_y);
            let i2 = Self::cell_idx(x2, y2, cells_x, cells_y);
            let ghost uf_head = uf;
            let r1 = uf.find(i1);
            let r2 = uf.find(i2);
            if r1 != r2 {
                let ghost uf0 = uf;
                let ghost g0 = *self;
                let ghost a0 = (x1 as int, y1 as int);
                let ghost b0 = (x2 as int, y2 as int);
                uf.union(i1, i2);
                let wx = (x1 + x2) / 2;
                let wy = (y1 + y2) / 2;
                let ghost w = (wx as int, wy as int);
                self.set_cell(x1, y1, PATH);
                let ghost g1 = *self;
                self.set_cell(x2, y2, PATH);
                let ghost g2 = *self;
                self.set_cell(wx, wy, PATH);
                proof {
                    assert(logical(m as int, n as int, a0) && logical(m as int, n as int, b0));
                    assert(wall_slot(m as int, n as int, w));
                    assert forall|r: int, k: int| 0 <= r < self.grid@.len() && 0 <= k < self.grid@[r]@.len() implies
                        #[trigger] self.grid@[r]@[k] == WALL || (self.grid@[r]@[k] == PATH && (structural(self.m as int, self.n as int, (k, r))
                            || (k, r) == (1int, 1int) || (k, r) == (self.m - 1, self.n - 1))) by {
                        assert(g1.grid@[r]@[k] == if r == y1 && k == x1 { PATH } else { g0.grid@[r]@[k] });
                        assert(g2.grid@[r]@[k] == if r == y2 && k == x2 { PATH } else { g1.grid@[r]@[k] });
                        assert(self.grid@[r]@[k] == if r == wy && k == wx { PATH } else { g2.grid@[r]@[k] });
                    }
                    uf0.lemma_roots_finite();
                    assert(wall_slot(m as int, n as int, w));
                    assert(wall_ends(w) == (a0, b0));
                    assert(!carved.contains(w));
                    carved = carved.insert(w);
                    unions = unions + 1;
                    assert forall|c: (int, int)| wall_slot(m as int, n as int, c) implies (#[trigger] self.cell(c) == PATH <==> carved.contains(c)) by {
                        assert(g0.cell(c) == PATH <==> carved.remove(w).contains(c) || (c == w && g0.cell(c) == PATH));
                    }
                    assert forall|c: (int, int)| #[trigger] carved.contains(c) implies wall_slot(m as int, n as int, c)
                        && uf.root(lidx(cx, wall_ends(c).0)) == uf.root(lidx(cx, wall_ends(c).1)) by {
                        if c != w {
                            lemma_lidx(cx, cells_y as int, m as int, n as int, wall_ends(c).0);
                            lemma_lidx(cx, cells_y as int, m as int, n as int, wall_ends(c).1);
                        }
                    }
                    assert forall|j: int| 0 <= j < k + 1 implies uf.root(lidx(cx, end_a(#[trigger] edges@[j]))) == uf.root(lidx(cx, end_b(edges@[j]))) by {
                        assert(edge_ok(m as int, n as int, edges@[j]));
                        lemma_lidx(cx, cells_y as int, m as int, n as int, end_a(edges@[j]));
                        lemma_lidx(cx, cells_y as int, m as int, n as int, end_b(edges@[j]));
                    }
                    assert forall|c: (int, int)| #[trigger] g0.passable(c) implies self.passable(c) by {}
                    assert(self.passable(a0) && self.passable(b0) && self.passable(w));
                    assert forall|a: (int, int), b: (int, int)| logical(m as int, n as int, a) && logical(m as int, n as int, b)
                        && uf.root(lidx(cx, a)) == uf.root(lidx(cx, b)) implies #[trigger] self.reachable(a, b) by {
                        lemma_lidx(cx, cells_y as int, m as int, n as int, a);
                        lemma_lidx(cx, cells_y as int, m as int, n as int, b);
                        lemma_lidx(cx, cells_y as int, m as int, n as int, a0);
                        lemma_lidx(cx, cells_y as int, m as int, n as int, b0);
                        let ra = uf0.root(lidx(cx, a0));
                        let rb = uf0.root(lidx(cx, b0));
                        if uf0.root(lidx(cx, a)) == uf0.root(lidx(cx, b)) {
                            assert(g0.reachable(a, b));
                            let p = choose|p: Seq<(int, int)>| g0.is_route(p, a, b);
                            crate::search::lemma_route_grow(g0, *self, p, a, b);
                        } else if uf0.root(lidx(cx, a)) == ra {
                            assert(g0.reachable(a, a0));
                            assert(g0.reachable(b0, b));
                            let head_route = choose|p: Seq<(int, int)>| g0.is_route(p, a, a0);
                            let tail_route = choose|p: Seq<(int, int)>| g0.is_route(p, b0, b);
                            crate::search::lemma_route_grow(g0, *self, head_route, a, a0);
                            crate::search::lemma_route_grow(g0, *self, tail_route, b0, b);
                            self.lemma_route_join(head_route, a, a0, w, tail_route, b0, b);
                        } else {
                            assert(g0.reachable(a, b0));
                            assert(g0.reachable(a0, b));
                            let head_route = choose|p: Seq<(int, int)>| g0.is_route(p, a, b0);
                            let tail_route = choose|p: Seq<(int, int)>| g0.is_route(p, a0, b);
                            crate::search::lemma_route_grow(g0, *self, head_route, a, b0);
                            crate::search::lemma_route_grow(g0, *self, tail_route, a0, b);
                            self.lemma_route_join(head_route, a, b0, w, tail_route, a0, b);
                        }
                    }
                    assert forall|x: (int, int), y: (int, int)| logical(m as int, n as int, x) && !self.passable(x) && logical(m as int, n as int, y)
                        && #[trigger] uf.root(lidx(cx, y)) == #[trigger] uf.root(lidx(cx, x)) implies y == x by {
                        lemma_lidx(cx, cells_y as int, m as int, n as int, x);
                        lemma_lidx(cx, cells_y as int, m as int, n as int, y);
                        lemma_lidx(cx, cells_y as int, m as int, n as int, a0);
                        lemma_lidx(cx, cells_y as int, m as int, n as int, b0);
                        assert(!g0.passable(x));
                        assert(x != a0 && x != b0);
                        assert(uf0.rep == uf_head.rep);
                        if uf0.root(lidx(cx, x)) == uf0.root(lidx(cx, a0)) {
                            assert(uf_head.root(lidx(cx, a0)) == uf_head.root(lidx(cx, x)));
                            assert(a0 == x);
                        }
                        if uf0.root(lidx(cx, x)) == uf0.root(lidx(cx, b0)) {
                            assert(uf_head.root(lidx(cx, b0)) == uf_head.root(lidx(cx, x)));
                            assert(b0 == x);
                        }
                        if uf0.root(lidx(cx, y)) == uf0.root(lidx(cx, a0)) || uf0.root(lidx(cx, y)) == uf0.root(lidx(cx, b0)) {
                            assert(false);
                        }
                        assert(uf0.root(lidx(cx, y)) == uf0.root(lidx(cx, x)));
                        assert(uf_head.root(lidx(cx, y)) == uf_head.root(lidx(cx, x)));
                    }
                    if even {
                        assert forall|c: (int, int)| wall_slot(m as int, n as int, c) && #[trigger] g0.passable(c) implies uf0.root(lidx(cx, wall_ends(c).0)) == uf0.root(lidx(cx, wall_ends(c).1)) by {
                            assert(g0.cell(c) == PATH);
                            assert(carved.remove(w).contains(c) || c == w);
                        }
                        assert(!g0.passable(w));
                        assert forall|c: (int, int)| #[trigger] self.passable(c) <==> g0.passable(c) || c == a0 || c == b0 || c == w by {}
                        assert forall|x: (int, int), y: (int, int)| logical(m as int, n as int, x) && !g0.passable(x) && logical(m as int, n as int, y)
                            && #[trigger] uf0.root(lidx(cx, y)) == #[trigger] uf0.root(lidx(cx, x)) implies y == x by {
                            assert(uf0.rep == uf_head.rep);
                            assert(uf_head.root(lidx(cx, y)) == uf_head.root(lidx(cx, x)));
                        }
                        assert(crate::tree::carve_step(g0, *self, uf0, m as int, n as int, cx, a0, b0, w));
                        crate::tree::lemma_tree_step(g0, *self, uf0, m as int, n as int, cx, a0, b0, w);
                        assert forall|c: (int, int)| #[trigger] self.passable(c) implies structural(m as int, n as int, c) by {
                            if c != a0 && c != b0 && c != w {
                                assert(g0.passable(c));
                            }
                        }
                    }
                    uf.lemma_roots_finite();
                }
            } else {
                proof {
                    assert forall|x: (int, int), y: (int, int)| logical(m as int, n as int, x) && !self.passable(x) && logical(m as int, n as int, y)
                        && #[trigger] uf.root(lidx(cx, y)) == #[trigger] uf.root(lidx(cx, x)) implies y == x by {
                        assert(uf.rep == uf_head.rep);
                        assert(uf_head.root(lidx(cx, y)) == uf_head.root(lidx(cx, x)));
                    }
                }
            }
            k = k + 1;
        }
        proof {
            assert forall|a: (int, int), b: (int, int)| #[trigger] pair_ok(m as int, n as int, a, b) implies uf.root(lidx(cx, a)) == uf.root(lidx(cx, b)) by {
                let e: Edge = ((a.0 as i32, a.1 as i32), (b.0 as i32, b.1 as i32));
                assert(edge_ok(m as int, n as int, e));
                assert(edges@.contains(e));
                let j = choose|j: int| 0 <= j < edges@.len() && edges@[j] == e;
                assert(uf.root(lidx(cx, end_a(edges@[j]))) == uf.root(lidx(cx, end_b(edges@[j]))));
            }
            assert(self.open_walls() =~= carved);
            if m >= 2 && n >= 2 {
                lemma_one_root(uf, m as int, n as int, cx, cells_y as int);
            }
            assert forall|a: (int, int), b: (int, int)| logical(m as int, n as int, a) && logical(m as int, n as int, b)
                implies #[trigger] self.reachable(a, b) by {
                lemma_all_join(uf, m as int, n as int, cx, a);
                lemma_all_join(uf, m as int, n as int, cx, b);
            }
            assert forall|c: (int, int)| #[trigger] self.passable(c) && structural(m as int, n as int, c) implies self.reachable((1, 1), c) by {
                let s = (1int, 1int);
                assert(logical(m as int, n as int, s));
                if !logical(m as int, n as int, c) {
                    let a = wall_ends(c).0;
                    assert(logical(m as int, n as int, a));
                    assert(self.reachable(s, a));
                    let p = choose|p: Seq<(int, int)>| self.is_route(p, s, a);
                    self.lemma_route_push(p, s, a, c);
                } else {
                    assert(self.reachable(s, c));
                }
            }
        }
    }

    /// Union-find index of the logical cell at odd `(x, y)`.
    fn cell_idx(x: i32, y: i32, cells_x: usize, cells_y: usize) -> (i: usize)
        requires
            x % 2 == 1,
            y % 2 == 1,
            1 <= x,
            1 <= y,
            x / 2 < cells_x,
            y / 2 < cells_y,
            cells_x * cells_y <= usize::MAX,
        ensures
            i == (y / 2) * cells_x + x / 2,
            i < cells_x * cells_y,
    {
        proof {
            let a = (y / 2) as int;
            let b = (x / 2) as int;
            assert(a * cells_x + b < cells_x * cells_y) by (nonlinear_arith)
                requires
                    0 <= a < cells_y,
                    0 <= b < cells_x,
            ;
        }
        (y as usize / 2) * cells_x + (x as usize / 2)
    }
}

/// The default maze is [`Maze::new`].
impl Default for Maze {
    fn default() -> (r: Maze)
        ensures
            r.wf(),
            r.m == 56 && r.n == 56 && r.sx == 1 && r.sy == 1,
    {
        Self::new()
    }
}

/// The colour in which a cell state is drawn.
pub open spec fn shade(v: int) -> Color {
    if v == PATH {
        Color::white_spec()
    } else if v == WALL {
        Color::black_spec()
    } else if v == VISITED {
        Color::sky_blue_spec()
    } else if v == BACKTRACK {
        Color::light_red_spec()
    } else if v == START {
        Color::yellow_spec()
    } else if v == SOLUTION {
        Color::aquamarine_spec()
    } else {
        Color::white_spec()
    }
}

/// The colour in which a cell state is drawn.
pub fn state_color(v: i32) -> (c: Color)
    ensures
        c == shade(v as int),
{
    if v == PATH {
        Color::white()
    } else if v == WALL {
        Color::black()
    } else if v == VISITED {
        Color::sky_blue()
    } else if v == BACKTRACK {
        Color::light_red()
    } else if v == START {
        Color::yellow()
    } else if v == SOLUTION {
        Color::aquamarine()
    } else {
        Color::white()
    }
}

proof fn lemma_pixel(w: int, h: int, y: int, x: int, qy: int, qx: int)
    requires
        0 <= x < w,
        0 <= qx < w,
        0 <= y < h,
        0 <= qy,
    ensures
        0 <= y * w + x < w * h,
        y * w + x == qy * w + qx ==> y == qy && x == qx,
{
    assert(0 <= y * w + x < w * h) by (nonlinear_arith)
        requires
            0 <= x < w,
            0 <= y < h,
    ;
    if y * w + x == qy * w + qx {
        assert(y == qy) by (nonlinear_arith)
            requires
                y * w + x == qy * w + qx,
                0 <= x < w,
                0 <= qx < w,
        ;
    }
}

/// Logical cells have distinct union-find indices in `0..cx * cy`.
proof fn lemma_lidx(cx: int, cy: int, m: int, n: int, c: (int, int))
    requires
        cx == m / 2,
        cy == n / 2,
        logical(m, n, c),
    ensures
        0 <= lidx(cx, c) < cx * cy,
        c == (2 * (c.0 / 2) + 1, 2 * (c.1 / 2) + 1),
{
    let p = c.0 / 2;
    let q = c.1 / 2;
    assert(q * cx + p < cx * cy) by (nonlinear_arith)
        requires
            0 <= p < cx,
            0 <= q < cy,
    ;
}

proof fn lemma_lidx_inj(cx: int, cy: int, m: int, n: int, a: (int, int), b: (int, int))
    requires
        cx == m / 2,
        cy == n / 2,
        logical(m, n, a),
        logical(m, n, b),
        lidx(cx, a) == lidx(cx, b),
    ensures
        a == b,
{
    lemma_lidx(cx, cy, m, n, a);
    lemma_lidx(cx, cy, m, n, b);
    let (pa, qa, pb, qb) = (a.0 / 2, a.1 / 2, b.0 / 2, b.1 / 2);
    assert(qa == qb && pa == pb) by (nonlinear_arith)
        requires
            qa * cx + pa == qb * cx + pb,
            0 <= pa < cx,
            0 <= pb < cx,
    ;
}

/// With every pair of neighbouring logical cells in one set, every logical
/// cell is in the set of the first one, `(1, 1)`.
proof fn lemma_all_join(uf: UnionFind, m: int, n: int, cx: int, c: (int, int))
    requires
        cx == m / 2,
        forall|a: (int, int), b: (int, int)| #[trigger] pair_ok(m, n, a, b) ==> uf.root(lidx(cx, a)) == uf.root(lidx(cx, b)),
        logical(m, n, c),
    ensures
        uf.root(lidx(cx, c)) == uf.root(0),
    decreases c.0 + c.1,
{
    if c.0 >= 3 {
        let a = (c.0 - 2, c.1);
        assert(pair_ok(m, n, a, c));
        lemma_all_join(uf, m, n, cx, a);
    } else if c.1 >= 3 {
        let a = (c.0, c.1 - 2);
        assert(pair_ok(m, n, a, c));
        lemma_all_join(uf, m, n, cx, a);
    } else {
        assert(c == (1int, 1int));
        assert(0 * cx == 0) by (nonlinear_arith);
        assert(lidx(cx, c) == 0);
    }
}

/// A forest over the logical cells in which all neighbours are joined has
/// a single tree.
proof fn lemma_one_root(uf: UnionFind, m: int, n: int, cx: int, cy: int)
    requires
        uf.wf(),
        uf.len() == cx * cy,
        cx == m / 2,
        cy == n / 2,
        m >= 2,
        n >= 2,
        forall|a: (int, int), b: (int, int)| #[trigger] pair_ok(m, n, a, b) ==> uf.root(lidx(cx, a)) == uf.root(lidx(cx, b)),
    ensures
        uf.roots().len() == 1,
{
    assert(cx * cy >= 1) by (nonlinear_arith)
        requires
            cx >= 1,
            cy >= 1,
    ;
    let r0 = uf.root(0);
    assert(uf.parent@[0] < uf.len());
    assert forall|r: int| uf.roots().contains(r) implies r == r0 by {
        let p = r % cx;
        let q = r / cx;
        assert(0 <= p < cx && 0 <= q < cy && q * cx + p == r) by (nonlinear_arith)
            requires
                0 <= r < cx * cy,
                cx >= 1,
                p == r % cx,
                q == r / cx,
        ;
        let c = (2 * p + 1, 2 * q + 1);
        assert(logical(m, n, c));
        assert(lidx(cx, c) == r);
        lemma_all_join(uf, m, n, cx, c);
    }
    assert(uf.roots() =~= set![r0]);
}

} // verus!
