//! A turtle on the integer grid: a position together with a facing
//! direction, advancing by unit steps.  The recursive curve builder
//! drives one of these, mirroring sub-curves by inverting its turns.

use vstd::prelude::*;

verus! {

/// One of the four cardinal orientations.
#[derive(Clone, Copy, Debug, PartialEq, Eq, Structural)]
pub enum Direction {
    Up,
    Down,
    Left,
    Right,
}

impl Direction {
    /// The orientation one quarter turn counter-clockwise from this one.
    pub open spec fn spec_turn_left(self) -> Direction {
        match self {
            Direction::Up => Direction::Left,
            Direction::Left => Direction::Down,
            Direction::Down => Direction::Right,
            Direction::Right => Direction::Up,
        }
    }

    /// The orientation one quarter turn clockwise from this one.
    pub open spec fn spec_turn_right(self) -> Direction {
        match self {
            Direction::Up => Direction::Right,
            Direction::Right => Direction::Down,
            Direction::Down => Direction::Left,
            Direction::Left => Direction::Up,
        }
    }

    /// Horizontal component of the unit step along this direction.
    pub open spec fn dx(self) -> int {
        match self {
            Direction::Up => 0,
            Direction::Down => 0,
            Direction::Left => -1,
            Direction::Right => 1,
        }
    }

    /// Vertical component of the unit step along this direction.
    pub open spec fn dy(self) -> int {
        match self {
            Direction::Up => 1,
            Direction::Down => -1,
            Direction::Left => 0,
            Direction::Right => 0,
        }
    }

    pub fn turn_left(self) -> (r: Direction)
        ensures
            r == self.spec_turn_left(),
    {
        match self {
            Direction::Up => Direction::Left,
            Direction::Left => Direction::Down,
            Direction::Down => Direction::Right,
            Direction::Right => Direction::Up,
        }
    }

    pub fn turn_right(self) -> (r: Direction)
        ensures
            r == self.spec_turn_right(),
    {
        match self {
            Direction::Up => Direction::Right,
            Direction::Right => Direction::Down,
            Direction::Down => Direction::Left,
            Direction::Left => Direction::Up,
        }
    }

    /// The unit step vector `(dx, dy)` of this direction.
    pub fn offsets(&self) -> (r: (i32, i32))
        ensures
            r.0 == self.dx(),
            r.1 == self.dy(),
    {
        match self {
            Direction::Up => (0, 1),
            Direction::Down => (0, -1),
            Direction::Left => (-1, 0),
            Direction::Right => (1, 0),
        }
    }
}

/// A turn with an optional mirror: when `invert` holds, left and right
/// are exchanged.  This is how the recursive construction mirrors
/// sub-curves without duplicating code paths.
pub open spec fn turned_left(d: Direction, invert: bool) -> Direction {
    if invert {
        d.spec_turn_right()
    } else {
        d.spec_turn_left()
    }
}

/// Mirror image of [`turned_left`].
pub open spec fn turned_right(d: Direction, invert: bool) -> Direction {
    if invert {
        d.spec_turn_left()
    } else {
        d.spec_turn_right()
    }
}

/// The mathematical state of a turtle: unbounded integer coordinates
/// and a facing direction.
pub ghost struct TurtleModel {
    pub x: int,
    pub y: int,
    pub dir: Direction,
}

impl TurtleModel {
    /// The state one unit step ahead, facing unchanged.
    pub open spec fn stepped(self) -> TurtleModel {
        TurtleModel { x: self.x + self.dir.dx(), y: self.y + self.dir.dy(), dir: self.dir }
    }

    /// The state after a possibly mirrored left turn.
    pub open spec fn turned_left(self, invert: bool) -> TurtleModel {
        TurtleModel { x: self.x, y: self.y, dir: turned_left(self.dir, invert) }
    }

    /// The state after a possibly mirrored right turn.
    pub open spec fn turned_right(self, invert: bool) -> TurtleModel {
        TurtleModel { x: self.x, y: self.y, dir: turned_right(self.dir, invert) }
    }

    /// The current position as a coordinate pair.
    pub open spec fn pos(self) -> (int, int) {
        (self.x, self.y)
    }
}

/// The executable turtle, with machine-width coordinates.
#[derive(Clone, Copy, Debug)]
pub struct GridTurtle {
    x: i32,
    y: i32,
    dir: Direction,
}

impl View for GridTurtle {
    type V = TurtleModel;

    closed spec fn view(&self) -> TurtleModel {
        TurtleModel { x: self.x as int, y: self.y as int, dir: self.dir }
    }
}

impl GridTurtle {
    pub fn new(x: i32, y: i32, dir: Direction) -> (r: GridTurtle)
        ensures
            r@ == (TurtleModel { x: x as int, y: y as int, dir }),
    {
        GridTurtle { x, y, dir }
    }

    pub fn turn_left(&mut self, invert: bool)
        ensures
            final(self)@ == old(self)@.turned_left(invert),
    {
        self.dir = if invert {
            self.dir.turn_right()
        } else {
            self.dir.turn_left()
        };
    }

    pub fn turn_right(&mut self, invert: bool)
        ensures
            final(self)@ == old(self)@.turned_right(invert),
    {
        self.dir = if invert {
            self.dir.turn_left()
        } else {
            self.dir.turn_right()
        };
    }

    /// Advance one grid unit along the current direction.
    pub fn forward(&mut self)
        requires
            i32::MIN < old(self)@.x < i32::MAX,
            i32::MIN < old(self)@.y < i32::MAX,
        ensures
            final(self)@ == old(self)@.stepped(),
    {
        let (x_off, y_off) = self.dir.offsets();
        self.x = self.x + x_off;
        self.y = self.y + y_off;
    }

    pub fn pos(&self) -> (r: (i32, i32))
        ensures
            r.0 == self@.x,
            r.1 == self@.y,
    {
        (self.x, self.y)
    }
}

} // verus!
