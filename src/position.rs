//! Cell addresses and the four compass directions.
use vstd::prelude::*;

verus! {

/// The address of one cell: column `x`, row `y`.
#[derive(Debug, Clone, Copy, PartialEq, Eq, Hash, PartialOrd, Ord, Structural)]
pub struct Position {
    pub x: u32,
    pub y: u32,
}

/// One of the four compass directions; `Up` decreases `y`, `Left` decreases `x`.
#[derive(Debug, Clone, Copy, PartialEq, Eq, Hash, Structural)]
pub enum Direction {
    Up,
    Down,
    Left,
    Right,
}

/// The column reached from `p` after `n` steps towards `d`, as an unbounded integer.
pub open spec fn moved_x(p: Position, d: Direction, n: int) -> int {
    match d {
        Direction::Left => p.x - n,
        Direction::Right => p.x + n,
        _ => p.x as int,
    }
}

/// The row reached from `p` after `n` steps towards `d`, as an unbounded integer.
pub open spec fn moved_y(p: Position, d: Direction, n: int) -> int {
    match d {
        Direction::Up => p.y - n,
        Direction::Down => p.y + n,
        _ => p.y as int,
    }
}

/// The position `n` steps from `p` towards `d`, or `None` where a coordinate
/// would leave the range of `u32`.
pub open spec fn moved(p: Position, d: Direction, n: int) -> Option<Position> {
    let x = moved_x(p, d, n);
    let y = moved_y(p, d, n);
    if 0 <= x <= u32::MAX && 0 <= y <= u32::MAX {
        Some(Position { x: x as u32, y: y as u32 })
    } else {
        None
    }
}

/// The neighbouring position towards `d`, if there is one.
pub open spec fn neighbour(p: Position, d: Direction) -> Option<Position> {
    moved(p, d, 1)
}

impl Position {
    pub fn new(x: u32, y: u32) -> (r: Position)
        ensures
            r.x == x,
            r.y == y,
    {
        Position { x, y }
    }

    /// The adjacent position towards `direction`; `None` at the edge of the
    /// coordinate range, so that leaving the top or left edge is explicit.
    pub fn move_to(&self, direction: Direction) -> (r: Option<Position>)
        ensures
            r == neighbour(*self, direction),
    {
        self.move_by(direction, 1)
    }

    /// The position `distance` steps towards `direction`, or `None` where a
    /// coordinate would fall below zero or above `u32::MAX`.
    pub fn move_by(&self, direction: Direction, distance: u32) -> (r: Option<Position>)
        ensures
            r == moved(*self, direction, distance as int),
    {
        match direction {
            Direction::Up => {
                if self.y >= distance {
                    Some(Position { x: self.x, y: self.y - distance })
                } else {
                    None
                }
            },
            Direction::Down => {
                if self.y <= u32::MAX - distance {
                    Some(Position { x: self.x, y: self.y + distance })
                } else {
                    None
                }
            },
            Direction::Left => {
                if self.x >= distance {
                    Some(Position { x: self.x - distance, y: self.y })
                } else {
                    None
                }
            },
            Direction::Right => {
                if self.x <= u32::MAX - distance {
                    Some(Position { x: self.x + distance, y: self.y })
                } else {
                    None
                }
            },
        }
    }
}

impl Direction {
    /// A quarter turn clockwise.
    pub open spec fn clockwise(self) -> Direction {
        match self {
            Direction::Up => Direction::Right,
            Direction::Right => Direction::Down,
            Direction::Down => Direction::Left,
            Direction::Left => Direction::Up,
        }
    }

    /// A quarter turn counter-clockwise.
    pub open spec fn counter_clockwise(self) -> Direction {
        match self {
            Direction::Up => Direction::Left,
            Direction::Left => Direction::Down,
            Direction::Down => Direction::Right,
            Direction::Right => Direction::Up,
        }
    }

    /// The character that shows this direction.
    pub open spec fn glyph(self) -> char {
        match self {
            Direction::Up => '^',
            Direction::Down => 'v',
            Direction::Left => '<',
            Direction::Right => '>',
        }
    }

    /// The four directions, in the order `Down`, `Up`, `Left`, `Right`.
    pub fn all() -> (r: [Direction; 4])
        ensures
            r@ == seq![Direction::Down, Direction::Up, Direction::Left, Direction::Right],
    {
        [Direction::Down, Direction::Up, Direction::Left, Direction::Right]
    }

    /// A quarter turn clockwise (`Up` becomes `Right`).
    pub fn turn90(&self) -> (r: Direction)
        ensures
            r == self.clockwise(),
    {
        match self {
            Direction::Up => Direction::Right,
            Direction::Down => Direction::Left,
            Direction::Left => Direction::Up,
            Direction::Right => Direction::Down,
        }
    }

    /// A half turn: the opposite direction.
    pub fn turn180(&self) -> (r: Direction)
        ensures
            r == self.clockwise().clockwise(),
    {
        match self {
            Direction::Up => Direction::Down,
            Direction::Down => Direction::Up,
            Direction::Left => Direction::Right,
            Direction::Right => Direction::Left,
        }
    }

    /// Three quarter turns clockwise, that is one counter-clockwise.
    pub fn turn270(&self) -> (r: Direction)
        ensures
            r == self.counter_clockwise(),
            r == self.clockwise().clockwise().clockwise(),
    {
        match self {
            Direction::Up => Direction::Left,
            Direction::Down => Direction::Right,
            Direction::Left => Direction::Down,
            Direction::Right => Direction::Up,
        }
    }

    /// The character that shows this direction: `^`, `v`, `<` or `>`.
    pub fn to_char(&self) -> (r: char)
        ensures
            r == self.glyph(),
    {
        match self {
            Direction::Up => '^',
            Direction::Down => 'v',
            Direction::Left => '<',
            Direction::Right => '>',
        }
    }

    /// The direction that `c` shows, or `None` if it shows none.
    pub fn from_char(c: char) -> (r: Option<Direction>)
        ensures
            r matches Some(d) ==> d.glyph() == c,
            r is None <==> (c != '^' && c != 'v' && c != '<' && c != '>'),
    {
        match c {
            '^' => Some(Direction::Up),
            'v' => Some(Direction::Down),
            '<' => Some(Direction::Left),
            '>' => Some(Direction::Right),
            _ => None,
        }
    }
}

} // verus!
