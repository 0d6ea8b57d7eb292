use vstd::prelude::*;

verus! {

/// One of the four directions in which the tiles of a board can be slid.
#[derive(Debug, Clone, Copy, PartialEq, Eq, Structural)]
pub enum Direction {
    Up,
    Down,
    Left,
    Right,
}

/// The unit step `(dx, dy)` of a direction; `y` grows downwards.
pub open spec fn direction_delta(d: Direction) -> (int, int) {
    match d {
        Direction::Up => (0, -1),
        Direction::Down => (0, 1),
        Direction::Left => (-1, 0),
        Direction::Right => (1, 0),
    }
}

/// The unit step of `direction`, as a pair of `isize`.
pub(crate) fn unit_step(direction: Direction) -> (r: (isize, isize))
    ensures
        r.0 as int == direction_delta(direction).0,
        r.1 as int == direction_delta(direction).1,
{
    match direction {
        Direction::Up => (0, -1),
        Direction::Down => (0, 1),
        Direction::Left => (-1, 0),
        Direction::Right => (1, 0),
    }
}

impl From<Direction> for (isize, isize) {
    fn from(direction: Direction) -> (r: (isize, isize)) {
        unit_step(direction)
    }
}

impl vstd::std_specs::convert::FromSpecImpl<Direction> for (isize, isize) {
    open spec fn obeys_from_spec() -> bool {
        true
    }

    open spec fn from_spec(d: Direction) -> (isize, isize) {
        (direction_delta(d).0 as isize, direction_delta(d).1 as isize)
    }
}

} // verus!
