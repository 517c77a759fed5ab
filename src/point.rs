//! Positions in the maze and the metadata a search attaches to them.
use vstd::prelude::*;

verus! {

/// A movement direction on the grid.
#[derive(Debug, Clone, Copy, PartialEq, Eq, Structural)]
pub enum Direction {
    /// No movement.
    Stay,
    Up,
    Down,
    Left,
    Right,
}

/// The opposite direction, as a spec function.
pub open spec fn reverse_spec(d: Direction) -> Direction {
    match d {
        Direction::Stay => Direction::Stay,
        Direction::Up => Direction::Down,
        Direction::Down => Direction::Up,
        Direction::Left => Direction::Right,
        Direction::Right => Direction::Left,
    }
}

/// The arrow drawn for a direction.
pub open spec fn arrow_of(d: Direction) -> char {
    match d {
        Direction::Stay => ' ',
        Direction::Up => '↑',
        Direction::Down => '↓',
        Direction::Left => '←',
        Direction::Right => '→',
    }
}

impl Direction {
    /// The arrow character that displays this direction.
    pub fn to_char(&self) -> (r: char)
        ensures
            r == arrow_of(*self),
    {
        match self {
            Direction::Stay => ' ',
            Direction::Up => '↑',
            Direction::Down => '↓',
            Direction::Left => '←',
            Direction::Right => '→',
        }
    }

    /// The opposite direction (`Stay` stays `Stay`).
    pub fn reverse(&self) -> (r: Direction)
        ensures
            r == reverse_spec(*self),
    {
        match self {
            Direction::Stay => Direction::Stay,
            Direction::Up => Direction::Down,
            Direction::Down => Direction::Up,
            Direction::Left => Direction::Right,
            Direction::Right => Direction::Left,
        }
    }
}

/// An RGB colour; in a step trace it tags the role of the entry.
#[derive(Debug, Clone, Copy, PartialEq, Eq, Structural)]
pub struct Color {
    pub r: u8,
    pub g: u8,
    pub b: u8,
}

/// The colour packed as `0x00RRGGBB`.
pub open spec fn packed(c: Color) -> int {
    c.r as int * 65536 + c.g as int * 256 + c.b as int
}

impl Color {
    /// Open corridor.
    pub open spec fn white_spec() -> Color {
        Color { r: 255, g: 255, b: 255 }
    }

    /// Open corridor.
    pub fn white() -> (c: Color)
        ensures
            c == Self::white_spec(),
    {
        Color { r: 255, g: 255, b: 255 }
    }

    /// Wall.
    pub open spec fn black_spec() -> Color {
        Color { r: 0, g: 10, b: 0 }
    }

    /// Wall.
    pub fn black() -> (c: Color)
        ensures
            c == Self::black_spec(),
    {
        Color { r: 0, g: 10, b: 0 }
    }

    /// Start and end markers.
    pub open spec fn yellow_spec() -> Color {
        Color { r: 255, g: 255, b: 0 }
    }

    /// Start and end markers.
    pub fn yellow() -> (c: Color)
        ensures
            c == Self::yellow_spec(),
    {
        Color { r: 255, g: 255, b: 0 }
    }

    /// Frontier (visited) cells.
    pub open spec fn sky_blue_spec() -> Color {
        Color { r: 135, g: 206, b: 235 }
    }

    /// Frontier (visited) cells.
    pub fn sky_blue() -> (c: Color)
        ensures
            c == Self::sky_blue_spec(),
    {
        Color { r: 135, g: 206, b: 235 }
    }

    /// Backtracked cells, and the end side of a bidirectional search.
    pub open spec fn light_red_spec() -> Color {
        Color { r: 255, g: 106, b: 106 }
    }

    /// Backtracked cells, and the end side of a bidirectional search.
    pub fn light_red() -> (c: Color)
        ensures
            c == Self::light_red_spec(),
    {
        Color { r: 255, g: 106, b: 106 }
    }

    /// Cells on the final path.
    pub open spec fn aquamarine_spec() -> Color {
        Color { r: 127, g: 255, b: 212 }
    }

    /// Cells on the final path.
    pub fn aquamarine() -> (c: Color)
        ensures
            c == Self::aquamarine_spec(),
    {
        Color { r: 127, g: 255, b: 212 }
    }

    pub fn new(r: u8, g: u8, b: u8) -> (c: Color)
        ensures
            c == (Color { r, g, b }),
    {
        Color { r, g, b }
    }

    /// Packs the colour into the low 24 bits of a `u32`.
    pub fn to_u32(&self) -> (v: u32)
        ensures
            v as int == packed(*self),
    {
        let r = self.r as u32;
        let g = self.g as u32;
        let b = self.b as u32;
        assert(((r << 16u32) | (g << 8u32) | b) == r * 65536 + g * 256 + b) by (bit_vector)
            requires
                r < 256,
                g < 256,
                b < 256,
        ;
        (r << 16u32) | (g << 8u32) | b
    }
}

/// A grid position with search metadata. Two points are equal when their
/// coordinates are equal, whatever their cost, direction or colour.
#[derive(Debug, Clone)]
pub struct Point {
    pub x: i32,
    pub y: i32,
    /// Accumulated path cost (g).
    pub step: i32,
    /// Heuristic estimate of the remaining cost (h).
    pub h_cost: i32,
    pub direction: Direction,
    pub color: Color,
}

/// The coordinates of a point.
pub open spec fn pos(p: Point) -> (int, int) {
    (p.x as int, p.y as int)
}

impl Point {
    pub fn new(x: i32, y: i32) -> (p: Point)
        ensures
            p == (Point { x, y, step: 0, h_cost: 0, direction: Direction::Stay, color: Color::white_spec() }),
    {
        Point { x, y, step: 0, h_cost: 0, direction: Direction::Stay, color: Color::white() }
    }

    pub fn with_step(x: i32, y: i32, step: i32) -> (p: Point)
        ensures
            p == (Point { x, y, step, h_cost: 0, direction: Direction::Stay, color: Color::white_spec() }),
    {
        Point { x, y, step, h_cost: 0, direction: Direction::Stay, color: Color::white() }
    }

    pub fn with_color(x: i32, y: i32, color: Color) -> (p: Point)
        ensures
            p == (Point { x, y, step: 0, h_cost: 0, direction: Direction::Stay, color }),
    {
        Point { x, y, step: 0, h_cost: 0, direction: Direction::Stay, color }
    }

    pub fn with_direction(x: i32, y: i32, direction: Direction) -> (p: Point)
        ensures
            p == (Point { x, y, step: 0, h_cost: 0, direction, color: Color::white_spec() }),
    {
        Point { x, y, step: 0, h_cost: 0, direction, color: Color::white() }
    }

    pub fn full(x: i32, y: i32, step: i32, h_cost: i32, direction: Direction, color: Color) -> (p:
        Point)
        ensures
            p == (Point { x, y, step, h_cost, direction, color }),
    {
        Point { x, y, step, h_cost, direction, color }
    }

    /// The A* priority `g + h`.
    pub fn f_cost(&self) -> (f: i32)
        requires
            i32::MIN <= self.step + self.h_cost <= i32::MAX,
        ensures
            f == self.step + self.h_cost,
    {
        self.step + self.h_cost
    }

    /// A copy of this point (all fields kept).
    pub fn copy(&self) -> (p: Point)
        ensures
            p == *self,
    {
        Point {
            x: self.x,
            y: self.y,
            step: self.step,
            h_cost: self.h_cost,
            direction: self.direction,
            color: self.color,
        }
    }
}

impl PartialEq for Point {
    fn eq(&self, other: &Point) -> (r: bool) {
        self.x == other.x && self.y == other.y
    }
}

impl vstd::std_specs::cmp::PartialEqSpecImpl for Point {
    open spec fn obeys_eq_spec() -> bool {
        true
    }

    open spec fn eq_spec(&self, other: &Point) -> bool {
        self.x == other.x && self.y == other.y
    }
}

impl Eq for Point {}

} // verus!
