//! Replaying a step trace onto a maze, and reading the final path out of it.
//! The trace is authoritative: the marks a search leaves on its maze can be
//! rebuilt from it.
use vstd::prelude::*;
use crate::map::{Maze, BACKTRACK, SOLUTION, START, VISITED};
use crate::point::{pos, Color, Direction, Point};

verus! {

/// The cell state that a trace entry of colour `c` leaves on a cell whose
/// state was `prev`.
pub open spec fn mark_for(c: Color, prev: int) -> int {
    if c == Color::yellow_spec() {
        START as int
    } else if c == Color::sky_blue_spec() {
        VISITED as int
    } else if c == Color::light_red_spec() {
        BACKTRACK as int
    } else if c == Color::aquamarine_spec() {
        SOLUTION as int
    } else {
        prev
    }
}

/// The state of cell `c` after the entries of `steps` were applied in
/// order to a cell whose state was `v`.
pub open spec fn replayed(v: int, steps: Seq<Point>, c: (int, int)) -> int
    decreases steps.len(),
{
    if steps.len() == 0 {
        v
    } else {
        let before = replayed(v, steps.drop_last(), c);
        if pos(steps.last()) == c {
            mark_for(steps.last().color, before)
        } else {
            before
        }
    }
}

/// Applies one trace entry: the entry's cell takes the state its colour
/// stands for (the state is kept for any other colour).
pub fn apply_step(map: &mut Maze, step: &Point)
    requires
        old(map).wf(),
    ensures
        final(map).wf(),
        final(map).same_shape(old(map)),
        forall|c: (int, int)| final(map).in_bounds_spec(c) ==> #[trigger] final(map).cell(c) == if c == pos(*step) {
            mark_for(step.color, old(map).cell(c))
        } else {
            old(map).cell(c)
        },
{
    let value = if step.color == Color::yellow() {
        START
    } else if step.color == Color::sky_blue() {
        VISITED
    } else if step.color == Color::light_red() {
        BACKTRACK
    } else if step.color == Color::aquamarine() {
        SOLUTION
    } else {
        map.get_cell(step.x, step.y)
    };
    map.set_cell(step.x, step.y, value);
}

/// A copy of `original` with the first `count` entries of `steps` applied.
pub fn replay(original: &Maze, steps: &Vec<Point>, count: usize) -> (r: Maze)
    requires
        original.wf(),
        count <= steps@.len(),
    ensures
        r.wf(),
        r.same_shape(original),
        forall|c: (int, int)| r.in_bounds_spec(c) ==> #[trigger] r.cell(c) == replayed(original.cell(c), steps@.subrange(0, count as int), c),
{
    let mut map = original.duplicate();
    let mut i: usize = 0;
    while i < count
        invariant
            i <= count <= steps@.len(),
            map.wf(),
            map.same_shape(original),
            forall|c: (int, int)| map.in_bounds_spec(c) ==> #[trigger] map.cell(c) == replayed(original.cell(c), steps@.subrange(0, i as int), c),
        decreases count - i,
    {
        let ghost before = map;
        apply_step(&mut map, &steps[i]);
        proof {
            assert forall|c: (int, int)| map.in_bounds_spec(c) implies #[trigger] map.cell(c) == replayed(original.cell(c), steps@.subrange(0, i + 1), c) by {
                assert(steps@.subrange(0, i + 1).drop_last() =~= steps@.subrange(0, i as int));
                assert(before.cell(c) == replayed(original.cell(c), steps@.subrange(0, i as int), c));
            }
        }
        i = i + 1;
    }
    map
}

/// Entries that belong to a final path: backtracked (light red) or
/// solution (aquamarine) ones.
pub open spec fn on_path(p: Point) -> bool {
    p.color == Color::light_red_spec() || p.color == Color::aquamarine_spec()
}

/// The path entries of `s`, in order.
pub open spec fn path_entries(s: Seq<Point>) -> Seq<Point>
    decreases s.len(),
{
    if s.len() == 0 {
        s
    } else if on_path(s.last()) {
        path_entries(s.drop_last()).push(s.last())
    } else {
        path_entries(s.drop_last())
    }
}

/// `s` without repeated cells, each cell kept at its first occurrence.
pub open spec fn first_visits(s: Seq<Point>) -> Seq<Point>
    decreases s.len(),
{
    if s.len() == 0 {
        s
    } else {
        let d = first_visits(s.drop_last());
        if exists|i: int| 0 <= i < d.len() && pos(#[trigger] d[i]) == pos(s.last()) {
            d
        } else {
            d.push(s.last())
        }
    }
}

/// The direction of a single move from `a` to `b`; `Stay` when `b` is not a
/// neighbour of `a`.
pub open spec fn step_dir(a: (int, int), b: (int, int)) -> Direction {
    if b.0 - a.0 == 1 && b.1 == a.1 {
        Direction::Right
    } else if b.0 - a.0 == -1 && b.1 == a.1 {
        Direction::Left
    } else if b.0 == a.0 && b.1 - a.1 == 1 {
        Direction::Down
    } else if b.0 == a.0 && b.1 - a.1 == -1 {
        Direction::Up
    } else {
        Direction::Stay
    }
}

/// The final path of a trace, start first: its path entries (reversed when
/// they were recorded end first, as backtracking is), each cell once.
pub open spec fn final_path(steps: Seq<Point>) -> Seq<Point> {
    let e = path_entries(steps);
    let ordered = if e.len() > 0 && e[0].color == Color::light_red_spec() { e.reverse() } else { e };
    first_visits(ordered)
}

fn dir_between(a: &Point, b: &Point) -> (d: Direction)
    ensures
        d == step_dir(pos(*a), pos(*b)),
{
    let dx: i64 = b.x as i64 - a.x as i64;
    let dy: i64 = b.y as i64 - a.y as i64;
    if dx == 1 && dy == 0 {
        Direction::Right
    } else if dx == -1 && dy == 0 {
        Direction::Left
    } else if dx == 0 && dy == 1 {
        Direction::Down
    } else if dx == 0 && dy == -1 {
        Direction::Up
    } else {
        Direction::Stay
    }
}

/// The final path of a trace as cells, each with the direction of the move
/// to the next one (`Stay` for the last).
pub fn extract_path_directions(steps: &Vec<Point>) -> (r: Vec<(i32, i32, Direction)>)
    ensures
        r@.len() == final_path(steps@).len(),
        forall|i: int| 0 <= i < r@.len() ==> {
            let u = final_path(steps@);
            &&& (#[trigger] r@[i]).0 == u[i].x
            &&& r@[i].1 == u[i].y
            &&& r@[i].2 == if i + 1 < u.len() { step_dir(pos(u[i]), pos(u[i + 1])) } else { Direction::Stay }
        },
{
    let mut entries: Vec<Point> = Vec::new();
    let mut i: usize = 0;
    while i < steps.len()
        invariant
            i <= steps@.len(),
            entries@ == path_entries(steps@.subrange(0, i as int)),
        decreases steps@.len() - i,
    {
        let s = steps[i].copy();
        proof {
            assert(steps@.subrange(0, i + 1).drop_last() =~= steps@.subrange(0, i as int));
        }
        if s.color == Color::light_red() || s.color == Color::aquamarine() {
            entries.push(s);
        }
        i = i + 1;
    }
    assert(steps@.subrange(0, steps@.len() as int) =~= steps@);
    let ghost e = entries@;
    let ordered = if entries.len() > 0 && entries[0].color == Color::light_red() {
        crate::search::reversed(&entries)
    } else {
        entries
    };
    let mut unique: Vec<Point> = Vec::new();
    let mut j: usize = 0;
    while j < ordered.len()
        invariant
            j <= ordered@.len(),
            unique@ == first_visits(ordered@.subrange(0, j as int)),
        decreases ordered@.len() - j,
    {
        let p = ordered[j].copy();
        let mut seen = false;
        let mut t: usize = 0;
        while t < unique.len()
            invariant
                t <= unique@.len(),
                seen <==> exists|k: int| 0 <= k < t && pos(#[trigger] unique@[k]) == pos(p),
            decreases unique@.len() - t,
        {
            if unique[t].x == p.x && unique[t].y == p.y {
                seen = true;
            }
            t = t + 1;
        }
        proof {
            assert(ordered@.subrange(0, j + 1).drop_last() =~= ordered@.subrange(0, j as int));
            assert(ordered@.subrange(0, j + 1).last() == p);
        }
        if !seen {
            unique.push(p);
        }
        j = j + 1;
    }
    assert(ordered@.subrange(0, ordered@.len() as int) =~= ordered@);
    let mut out: Vec<(i32, i32, Direction)> = Vec::new();
    let mut k: usize = 0;
    while k < unique.len()
        invariant
            k <= unique@.len(),
            unique@ == final_path(steps@),
            out@.len() == k,
            forall|i: int| 0 <= i < k ==> {
                let u = final_path(steps@);
                &&& (#[trigger] out@[i]).0 == u[i].x
                &&& out@[i].1 == u[i].y
                &&& out@[i].2 == if i + 1 < u.len() { step_dir(pos(u[i]), pos(u[i + 1])) } else { Direction::Stay }
            },
        decreases unique@.len() - k,
    {
        let d = if k + 1 < unique.len() {
            dir_between(&unique[k], &unique[k + 1])
        } else {
            Direction::Stay
        };
        out.push((unique[k].x, unique[k].y, d));
        k = k + 1;
    }
    out
}

} // verus!
