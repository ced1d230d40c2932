//! Geometric value types: lattice points, facing directions, per-turn moves,
//! and placements (point plus direction) with manipulator-frame rotation.

use vstd::prelude::*;

verus! {

/// An integer lattice point; the grid is y-up with (0,0) at the bottom left.
#[derive(Clone, Copy, PartialEq, Eq, Structural, Debug)]
pub struct Point {
    pub x: i32,
    pub y: i32,
}

/// A basic per-turn action of a robot.
#[derive(Clone, Copy, PartialEq, Eq, Structural, Debug)]
pub enum Move {
    MoveUp,
    MoveDown,
    MoveLeft,
    MoveRight,
    Noop,
    TurnLeft,
    TurnRight,
}

/// A facing of a robot; manipulator offsets are stored in the canonical
/// "facing Right" frame and rotated into the current frame on use.
#[derive(Clone, Copy, PartialEq, Eq, Structural, Debug)]
pub enum Direction {
    Left,
    Up,
    Right,
    Down,
}

/// A robot placement: current point and facing.
#[derive(Clone, Copy, PartialEq, Eq, Structural, Debug)]
pub struct Place {
    pub point: Point,
    pub dir: Direction,
}

impl Point {
    /// The (x, y) displacement of a move; turns and Noop displace by nothing.
    pub open spec fn spec_move_delta(m: Move) -> (int, int) {
        match m {
            Move::MoveUp => (0, 1),
            Move::MoveDown => (0, -1),
            Move::MoveRight => (1, 0),
            Move::MoveLeft => (-1, 0),
            Move::Noop => (0, 0),
            Move::TurnLeft => (0, 0),
            Move::TurnRight => (0, 0),
        }
    }

    /// True when applying `m` to `self` stays within `i32` range.
    pub open spec fn can_move(self, m: Move) -> bool {
        let (dx, dy) = Self::spec_move_delta(m);
        i32::MIN <= self.x + dx <= i32::MAX && i32::MIN <= self.y + dy <= i32::MAX
    }

    pub fn new(x: i32, y: i32) -> (r: Point)
        ensures
            r.x == x,
            r.y == y,
    {
        Point { x, y }
    }

    /// Move one cell in the direction of `kind`; turns and Noop keep the point.
    pub fn move_with(self, kind: &Move) -> (r: Point)
        requires
            self.can_move(*kind),
        ensures
            r.x == self.x + Self::spec_move_delta(*kind).0,
            r.y == self.y + Self::spec_move_delta(*kind).1,
    {
        match kind {
            Move::MoveUp => Point { x: self.x, y: self.y + 1 },
            Move::MoveDown => Point { x: self.x, y: self.y - 1 },
            Move::MoveRight => Point { x: self.x + 1, y: self.y },
            Move::MoveLeft => Point { x: self.x - 1, y: self.y },
            Move::Noop => self,
            Move::TurnLeft => self,
            Move::TurnRight => self,
        }
    }

    /// Undo `move_with(kind)`: move one cell against the direction of `kind`.
    pub fn revert_with(self, kind: &Move) -> (r: Point)
        requires
            i32::MIN <= self.x - Self::spec_move_delta(*kind).0 <= i32::MAX,
            i32::MIN <= self.y - Self::spec_move_delta(*kind).1 <= i32::MAX,
        ensures
            r.x == self.x - Self::spec_move_delta(*kind).0,
            r.y == self.y - Self::spec_move_delta(*kind).1,
    {
        match kind {
            Move::MoveUp => Point { x: self.x, y: self.y - 1 },
            Move::MoveDown => Point { x: self.x, y: self.y + 1 },
            Move::MoveRight => Point { x: self.x - 1, y: self.y },
            Move::MoveLeft => Point { x: self.x + 1, y: self.y },
            Move::Noop => self,
            Move::TurnLeft => self,
            Move::TurnRight => self,
        }
    }
}

impl Direction {
    /// Cyclic rotation Right -> Down -> Left -> Up -> Right.
    pub open spec fn spec_turn_right(self) -> Direction {
        match self {
            Direction::Left => Direction::Up,
            Direction::Up => Direction::Right,
            Direction::Right => Direction::Down,
            Direction::Down => Direction::Left,
        }
    }

    /// Cyclic rotation Right -> Up -> Left -> Down -> Right.
    pub open spec fn spec_turn_left(self) -> Direction {
        match self {
            Direction::Left => Direction::Down,
            Direction::Up => Direction::Left,
            Direction::Right => Direction::Up,
            Direction::Down => Direction::Right,
        }
    }

    /// Rotate an offset from the canonical "facing Right" frame into the
    /// frame of `self`, as a pair of mathematical integers.
    pub open spec fn spec_convert(self, x: int, y: int) -> (int, int) {
        match self {
            Direction::Right => (x, y),
            Direction::Up => (-y, x),
            Direction::Left => (-x, -y),
            Direction::Down => (y, -x),
        }
    }

    /// The inverse rotation of `spec_convert`.
    pub open spec fn spec_reconvert(self, x: int, y: int) -> (int, int) {
        match self {
            Direction::Right => (x, y),
            Direction::Up => (y, -x),
            Direction::Left => (-x, -y),
            Direction::Down => (-y, x),
        }
    }

    /// The facing after applying a move: only turns change it.
    pub open spec fn spec_move_with(self, kind: Move) -> Direction {
        match kind {
            Move::TurnLeft => self.spec_turn_left(),
            Move::TurnRight => self.spec_turn_right(),
            _ => self,
        }
    }

    pub fn turn_right(self) -> (r: Direction)
        ensures
            r == self.spec_turn_right(),
    {
        match self {
            Direction::Left => Direction::Up,
            Direction::Up => Direction::Right,
            Direction::Right => Direction::Down,
            Direction::Down => Direction::Left,
        }
    }

    pub fn turn_left(self) -> (r: Direction)
        ensures
            r == self.spec_turn_left(),
    {
        match self {
            Direction::Left => Direction::Down,
            Direction::Up => Direction::Left,
            Direction::Right => Direction::Up,
            Direction::Down => Direction::Right,
        }
    }

    pub fn convert(self, p: Point) -> (r: Point)
        requires
            i32::MIN < p.x,
            i32::MIN < p.y,
        ensures
            (r.x as int, r.y as int) == self.spec_convert(p.x as int, p.y as int),
    {
        match self {
            Direction::Right => p,
            Direction::Up => Point { x: -p.y, y: p.x },
            Direction::Left => Point { x: -p.x, y: -p.y },
            Direction::Down => Point { x: p.y, y: -p.x },
        }
    }

    pub fn reconvert(self, p: Point) -> (r: Point)
        requires
            i32::MIN < p.x,
            i32::MIN < p.y,
        ensures
            (r.x as int, r.y as int) == self.spec_reconvert(p.x as int, p.y as int),
    {
        match self {
            Direction::Right => p,
            Direction::Up => Point { x: p.y, y: -p.x },
            Direction::Left => Point { x: -p.x, y: -p.y },
            Direction::Down => Point { x: -p.y, y: p.x },
        }
    }

    pub fn move_with(self, kind: &Move) -> (r: Direction)
        ensures
            r == self.spec_move_with(*kind),
    {
        match kind {
            Move::TurnLeft => self.turn_left(),
            Move::TurnRight => self.turn_right(),
            _ => self,
        }
    }

    pub fn revert_with(self, kind: &Move) -> (r: Direction)
        ensures
            r.spec_move_with(*kind) == self,
    {
        match kind {
            Move::TurnLeft => self.turn_right(),
            Move::TurnRight => self.turn_left(),
            _ => self,
        }
    }
}

/// Turning left undoes turning right, and conversely.
pub proof fn lemma_turns_inverse(d: Direction)
    ensures
        d.spec_turn_right().spec_turn_left() == d,
        d.spec_turn_left().spec_turn_right() == d,
{
}

/// `spec_reconvert` inverts `spec_convert` in both composition orders.
pub proof fn lemma_convert_inverse(d: Direction, x: int, y: int)
    ensures
        ({
            let (cx, cy) = d.spec_convert(x, y);
            d.spec_reconvert(cx, cy) == (x, y)
        }),
        ({
            let (rx, ry) = d.spec_reconvert(x, y);
            d.spec_convert(rx, ry) == (x, y)
        }),
{
}

impl Place {
    /// The placement reached from `self` by move `m`.
    pub open spec fn spec_move_with(self, m: Move) -> Place {
        Place {
            point: Point {
                x: (self.point.x + Point::spec_move_delta(m).0) as i32,
                y: (self.point.y + Point::spec_move_delta(m).1) as i32,
            },
            dir: self.dir.spec_move_with(m),
        }
    }

    pub fn new(p: Point, d: Direction) -> (r: Place)
        ensures
            r.point == p,
            r.dir == d,
    {
        Place { point: p, dir: d }
    }

    pub fn move_with(&self, m: &Move) -> (r: Place)
        requires
            self.point.can_move(*m),
        ensures
            r == self.spec_move_with(*m),
            r.point.x == self.point.x + Point::spec_move_delta(*m).0,
            r.point.y == self.point.y + Point::spec_move_delta(*m).1,
            r.dir == self.dir.spec_move_with(*m),
    {
        Place { point: self.point.move_with(m), dir: self.dir.move_with(m) }
    }

    pub fn revert_with(&self, m: &Move) -> (r: Place)
        requires
            i32::MIN <= self.point.x - Point::spec_move_delta(*m).0 <= i32::MAX,
            i32::MIN <= self.point.y - Point::spec_move_delta(*m).1 <= i32::MAX,
        ensures
            r.point.can_move(*m),
            r.spec_move_with(*m) == *self,
    {
        Place { point: self.point.revert_with(m), dir: self.dir.revert_with(m) }
    }

    pub fn point(&self) -> (r: Point)
        ensures
            r == self.point,
    {
        self.point
    }

    pub fn dir(&self) -> (r: Direction)
        ensures
            r == self.dir,
    {
        self.dir
    }

    /// The grid cell covered by manipulator offset `r` at this placement:
    /// the current point plus the offset rotated into the current frame.
    pub fn hand(&self, r: Point) -> (h: Point)
        requires
            i32::MIN < r.x,
            i32::MIN < r.y,
            ({
                let (cx, cy) = self.dir.spec_convert(r.x as int, r.y as int);
                i32::MIN <= self.point.x + cx <= i32::MAX && i32::MIN <= self.point.y + cy
                    <= i32::MAX
            }),
        ensures
            ({
                let (cx, cy) = self.dir.spec_convert(r.x as int, r.y as int);
                h.x == self.point.x + cx && h.y == self.point.y + cy
            }),
    {
        let c = self.dir.convert(r);
        Point { x: self.point.x + c.x, y: self.point.y + c.y }
    }
}

} // verus!
