//! Voxel coordinates and the six signed axis directions.

use vstd::prelude::*;

verus! {

/// The largest supported edge length of a grid.
pub const MAX_D: u8 = 14;

/// The axis (0 = x, 1 = y, 2 = z) that direction `dir` runs along. The six
/// directions are `0 = +x, 1 = -x, 2 = +y, 3 = -y, 4 = +z, 5 = -z`.
pub open spec fn axis_of(dir: u8) -> int {
    dir as int / 2
}

/// The direction opposite to `dir`; as a bit operation this is `dir ^ 1`.
pub open spec fn opposite(dir: u8) -> u8 {
    if dir % 2 == 0 {
        (dir + 1) as u8
    } else {
        (dir - 1) as u8
    }
}

/// `dir ^ 1` flips the sign of a direction and keeps its axis.
pub proof fn lemma_xor_is_opposite(dir: u8)
    ensures
        dir ^ 1 == opposite(dir),
{
    assert(dir ^ 1 == if dir % 2 == 0 {
        (dir + 1) as u8
    } else {
        (dir - 1) as u8
    }) by (bit_vector);
}

/// The opposite direction, computed.
pub fn flip(dir: u8) -> (r: u8)
    ensures
        r == opposite(dir),
{
    proof {
        lemma_xor_is_opposite(dir);
    }
    dir ^ 1
}

/// An integer offset between two voxels.
pub struct Offset {
    pub dx: int,
    pub dy: int,
    pub dz: int,
}

impl Offset {
    pub open spec fn zero() -> Offset {
        Offset { dx: 0, dy: 0, dz: 0 }
    }

    pub open spec fn plus(self, other: Offset) -> Offset {
        Offset { dx: self.dx + other.dx, dy: self.dy + other.dy, dz: self.dz + other.dz }
    }

    /// `k` steps in direction `dir`.
    pub open spec fn along(dir: u8, k: int) -> Offset {
        if dir == 0 {
            Offset { dx: k, dy: 0, dz: 0 }
        } else if dir == 1 {
            Offset { dx: -k, dy: 0, dz: 0 }
        } else if dir == 2 {
            Offset { dx: 0, dy: k, dz: 0 }
        } else if dir == 3 {
            Offset { dx: 0, dy: -k, dz: 0 }
        } else if dir == 4 {
            Offset { dx: 0, dy: 0, dz: k }
        } else {
            Offset { dx: 0, dy: 0, dz: -k }
        }
    }

    /// One step in direction `dir`.
    pub open spec fn unit(dir: u8) -> Offset {
        Offset::along(dir, 1)
    }
}

/// A voxel position `(x, y, z)`.
#[derive(Debug, Copy, Clone, Eq, PartialEq, Ord, PartialOrd, Hash, Structural)]
pub struct Point(pub u8, pub u8, pub u8);

impl Point {
    #[inline(always)]
    pub fn new(x: u8, y: u8, z: u8) -> (p: Point)
        ensures
            p == Point(x, y, z),
    {
        Point(x, y, z)
    }

    pub fn x(self) -> (r: u8)
        ensures
            r == self.0,
    {
        self.0
    }

    pub fn y(self) -> (r: u8)
        ensures
            r == self.1,
    {
        self.1
    }

    pub fn z(self) -> (r: u8)
        ensures
            r == self.2,
    {
        self.2
    }

    /// All three coordinates lie in `[0, d)`.
    pub open spec fn in_box(self, d: u8) -> bool {
        self.0 < d && self.1 < d && self.2 < d
    }

    /// The offset that leads from `origin` to `self`.
    pub open spec fn offset_from(self, origin: Point) -> Offset {
        Offset { dx: self.0 - origin.0, dy: self.1 - origin.1, dz: self.2 - origin.2 }
    }

    /// `self` and `other` differ by one step along one axis.
    pub open spec fn adjacent(self, other: Point) -> bool {
        exists|dir: u8| dir < 6 && #[trigger] Offset::unit(dir) == other.offset_from(self)
    }

    /// A coordinate moved by one step forward or backward, on the 8-bit
    /// wheel: a step back from 0 leads to 255, which lies in no grid.
    pub open spec fn wheel(c: u8, forward: bool) -> u8 {
        if forward {
            if c == 255 {
                0u8
            } else {
                (c + 1) as u8
            }
        } else {
            if c == 0 {
                255u8
            } else {
                (c - 1) as u8
            }
        }
    }

    /// The neighbour of `self` in `direction` if the moved coordinate stays
    /// below `d`; nothing for a direction that is not one of the six.
    pub open spec fn spec_next_cell(self, d: u8, direction: u8) -> Option<Point> {
        if direction >= 6 {
            None
        } else {
            let forward = direction % 2 == 0;
            if direction / 2 == 0 {
                let x = Point::wheel(self.0, forward);
                if x < d {
                    Some(Point(x, self.1, self.2))
                } else {
                    None
                }
            } else if direction / 2 == 1 {
                let y = Point::wheel(self.1, forward);
                if y < d {
                    Some(Point(self.0, y, self.2))
                } else {
                    None
                }
            } else {
                let z = Point::wheel(self.2, forward);
                if z < d {
                    Some(Point(self.0, self.1, z))
                } else {
                    None
                }
            }
        }
    }

    /// Moves `x` by `dx` on the 8-bit wheel, so that 1 is a step forward and
    /// 255 a step back, and keeps the result if it is below `d`.
    fn to_x(self, d: u8, dx: u8) -> (r: Option<Point>)
        ensures
            dx == 1 || dx == 255 ==> r == (if Point::wheel(self.0, dx == 1) < d {
                Some(Point(Point::wheel(self.0, dx == 1), self.1, self.2))
            } else {
                None
            }),
    {
        let x: u8 = self.0.wrapping_add(dx);
        if x < d {
            Some(Point(x, self.1, self.2))
        } else {
            None
        }
    }

    /// Moves `y` by `dy` on the 8-bit wheel and keeps the result if it is
    /// below `d`.
    fn to_y(self, d: u8, dy: u8) -> (r: Option<Point>)
        ensures
            dy == 1 || dy == 255 ==> r == (if Point::wheel(self.1, dy == 1) < d {
                Some(Point(self.0, Point::wheel(self.1, dy == 1), self.2))
            } else {
                None
            }),
    {
        let y: u8 = self.1.wrapping_add(dy);
        if y < d {
            Some(Point(self.0, y, self.2))
        } else {
            None
        }
    }

    /// Moves `z` by `dz` on the 8-bit wheel and keeps the result if it is
    /// below `d`.
    fn to_z(self, d: u8, dz: u8) -> (r: Option<Point>)
        ensures
            dz == 1 || dz == 255 ==> r == (if Point::wheel(self.2, dz == 1) < d {
                Some(Point(self.0, self.1, Point::wheel(self.2, dz == 1)))
            } else {
                None
            }),
    {
        let z: u8 = self.2.wrapping_add(dz);
        if z < d {
            Some(Point(self.0, self.1, z))
        } else {
            None
        }
    }

    /// The neighbour in `direction` if it lies inside `[0, d)³`.
    pub fn next_cell(self, d: u8, direction: u8) -> (r: Option<Point>)
        ensures
            r == self.spec_next_cell(d, direction),
    {
        match direction {
            0 => self.to_x(d, 1),
            1 => self.to_x(d, 255),
            2 => self.to_y(d, 1),
            3 => self.to_y(d, 255),
            4 => self.to_z(d, 1),
            5 => self.to_z(d, 255),
            _ => None,
        }
    }
}

/// Inside the box a step never wraps: the neighbour exists exactly when the
/// stepped position is still inside, and then it is one unit step away.
pub proof fn lemma_next_cell_in_box(p: Point, d: u8, direction: u8)
    requires
        p.in_box(d),
        direction < 6,
    ensures
        match p.spec_next_cell(d, direction) {
            Some(q) => q.in_box(d) && q.offset_from(p) == Offset::unit(direction) && p.adjacent(q)
                && q != p,
            None => {
                let o = Offset::unit(direction);
                !(0 <= p.0 + o.dx < d && 0 <= p.1 + o.dy < d && 0 <= p.2 + o.dz < d)
            },
        },
{
    match p.spec_next_cell(d, direction) {
        Some(q) => {
            assert(Offset::unit(direction) == q.offset_from(p));
        },
        None => {},
    }
}

} // verus!
