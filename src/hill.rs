//! Positions on a height map and their neighbours.

use vstd::prelude::*;

verus! {

/// A cell of the map: column `x`, row `y` (row 0 on top).
#[derive(Clone, Copy, Debug, PartialEq, Eq)]
pub struct Position {
    pub x: usize,
    pub y: usize,
}

pub fn new_pos(x: usize, y: usize) -> (r: Position)
    ensures
        r == (Position { x, y }),
{
    Position { x, y }
}

impl Position {
    /// The neighbours inside a `width` by `height` map, in the order above, left,
    /// below, right; `None` where the map ends.
    pub fn get_neighbours(self: &Self, height: &usize, width: &usize) -> (r: [Option<Self>; 4])
        requires
            *height >= 1,
            *width >= 1,
        ensures
            r@[0] == if self.y > 0 { Some(Position { x: self.x, y: (self.y - 1) as usize }) } else { None },
            r@[1] == if self.x > 0 { Some(Position { x: (self.x - 1) as usize, y: self.y }) } else { None },
            r@[2] == if self.y < *height - 1 { Some(Position { x: self.x, y: (self.y + 1) as usize }) } else { None },
            r@[3] == if self.x < *width - 1 { Some(Position { x: (self.x + 1) as usize, y: self.y }) } else { None },
    {
        let top = if self.y > 0 {
            Some(new_pos(self.x, self.y - 1))
        } else {
            None
        };
        let left = if self.x > 0 {
            Some(new_pos(self.x - 1, self.y))
        } else {
            None
        };
        let bot = if self.y < *height - 1 {
            Some(new_pos(self.x, self.y + 1))
        } else {
            None
        };
        let right = if self.x < *width - 1 {
            Some(new_pos(self.x + 1, self.y))
        } else {
            None
        };
        [top, left, bot, right]
    }
}

} // verus!
