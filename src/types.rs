use vstd::prelude::*;

verus! {

/// The largest size a ball can grow to.
pub const MAX_SIZE: u8 = 4;

/// Terrain of one cell.
#[derive(Clone, Copy, Debug, PartialEq, Eq, Structural, Hash)]
pub enum Ground {
    Plain,
    Snow,
    Block,
}

/// A ball: its size and the cell it rests on.
#[derive(Clone, Copy, Debug, PartialEq, Eq, Structural, Hash)]
pub struct Ball {
    pub size: u8,
    pub x: i32,
    pub y: i32,
}

/// A cell of the grid.
#[derive(Clone, Copy, Debug, PartialEq, Eq, Structural, Hash)]
pub struct Pos {
    pub x: i32,
    pub y: i32,
}

/// One push of a solution: which ball, and where to.
#[derive(Clone, Copy, Debug, PartialEq, Eq, Structural, Hash)]
pub struct Move {
    pub ball: usize,
    pub dir: Direction,
}

/// One of the four directions of a push.
#[derive(Clone, Copy, Debug, PartialEq, Eq, Structural, Hash)]
pub enum Direction {
    Left,
    Right,
    Down,
    Up,
}

/// The opposite direction.
pub open spec fn inverse_spec(d: Direction) -> Direction {
    match d {
        Direction::Left => Direction::Right,
        Direction::Right => Direction::Left,
        Direction::Down => Direction::Up,
        Direction::Up => Direction::Down,
    }
}

/// The cell one step from `(x, y)` in direction `d`.
pub open spec fn step_spec(d: Direction, x: int, y: int) -> (int, int) {
    match d {
        Direction::Left => (x - 1, y),
        Direction::Right => (x + 1, y),
        Direction::Up => (x, y - 1),
        Direction::Down => (x, y + 1),
    }
}

/// Size of a ball of size `s` after it lands on snow: doubled, but not past
/// `MAX_SIZE`; a ball already at the cap keeps its size.
pub open spec fn grown(s: u8) -> u8 {
    if s >= MAX_SIZE {
        s
    } else if 2 * s > MAX_SIZE {
        MAX_SIZE
    } else {
        (2 * s) as u8
    }
}

impl Direction {
    pub fn inverse(&self) -> (r: Direction)
        ensures
            r == inverse_spec(*self),
    {
        match self {
            Direction::Left => Direction::Right,
            Direction::Right => Direction::Left,
            Direction::Down => Direction::Up,
            Direction::Up => Direction::Down,
        }
    }

    pub fn step(&self, x: i32, y: i32) -> (r: (i32, i32))
        requires
            i32::MIN < x < i32::MAX,
            i32::MIN < y < i32::MAX,
        ensures
            (r.0 as int, r.1 as int) == step_spec(*self, x as int, y as int),
    {
        match self {
            Direction::Left => (x - 1, y),
            Direction::Right => (x + 1, y),
            Direction::Up => (x, y - 1),
            Direction::Down => (x, y + 1),
        }
    }
}

/// Size of a ball after landing on snow.
pub fn grow(s: u8) -> (r: u8)
    ensures
        r == grown(s),
{
    if s >= MAX_SIZE {
        s
    } else if s > MAX_SIZE / 2 {
        MAX_SIZE
    } else {
        s * 2
    }
}

} // verus!
