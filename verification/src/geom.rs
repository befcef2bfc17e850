use vstd::prelude::*;

verus! {

/// Clamp an unbounded integer into the `u8` range.
pub open spec fn sat_u8(v: int) -> u8 {
    if v < 0 { 0u8 } else if v > 255 { 255u8 } else { v as u8 }
}

/// Clamp an unbounded integer into the `i8` range.
pub open spec fn sat_i8(v: int) -> i8 {
    if v < -128 { -128i8 } else if v > 127 { 127i8 } else { v as i8 }
}

/// Magnitude of an integer.
pub open spec fn abs_int(v: int) -> int {
    if v < 0 { -v } else { v }
}

/// Sign of an integer: -1, 0 or 1.
pub open spec fn sign_int(v: int) -> int {
    if v < 0 { -1 } else if v > 0 { 1 } else { 0 }
}

fn clamp_to_i8(v: i32) -> (r: i8)
    ensures
        r == sat_i8(v as int),
{
    if v < -128 {
        -128
    } else if v > 127 {
        127
    } else {
        v as i8
    }
}

fn clamp_to_u8(v: i32) -> (r: u8)
    ensures
        r == sat_u8(v as int),
{
    if v < 0 {
        0
    } else if v > 255 {
        255
    } else {
        v as u8
    }
}

fn abs_i8(v: i8) -> (r: i32)
    ensures
        r == abs_int(v as int),
{
    if v < 0 {
        -(v as i32)
    } else {
        v as i32
    }
}

fn sign_i8(v: i8) -> (r: i8)
    ensures
        r == sign_int(v as int),
{
    if v < 0 {
        -1
    } else if v > 0 {
        1
    } else {
        0
    }
}

/// Player ID within a single game.
#[derive(Debug, Clone, Copy, PartialEq, Eq, Hash, Structural)]
pub struct Pid(pub u8);

/// Coordinate on the board.
#[derive(Debug, Clone, Copy, PartialEq, Eq, Hash, Structural)]
pub struct Coord {
    pub x: u8,
    pub y: u8,
}

/// Offset between two coordinates.
#[derive(Debug, Clone, Copy, PartialEq, Eq, Hash, Structural)]
pub struct Delta {
    pub dx: i8,
    pub dy: i8,
}

/// One move proposal: player `who` wants the piece at `from` moved to `to`.
#[derive(Debug, Clone, Copy, PartialEq, Eq, Hash, Structural)]
pub struct Move {
    pub who: Pid,
    pub from: Coord,
    pub to: Coord,
}

impl Coord {
    /// The coordinate as a pair of indices.
    pub fn ix(self) -> (r: (usize, usize))
        ensures
            r.0 == self.x as usize,
            r.1 == self.y as usize,
    {
        (self.x as usize, self.y as usize)
    }

    /// Difference of two coordinates, each component clamped into `i8`.
    pub fn minus(self, other: Coord) -> (r: Delta)
        ensures
            r.dx == sat_i8(self.x - other.x),
            r.dy == sat_i8(self.y - other.y),
    {
        Delta {
            dx: clamp_to_i8(self.x as i32 - other.x as i32),
            dy: clamp_to_i8(self.y as i32 - other.y as i32),
        }
    }

    /// Displace a coordinate, each component clamped into `u8`.
    pub fn plus(self, d: Delta) -> (r: Coord)
        ensures
            r.x == sat_u8(self.x + d.dx),
            r.y == sat_u8(self.y + d.dy),
    {
        Coord {
            x: clamp_to_u8(self.x as i32 + d.dx as i32),
            y: clamp_to_u8(self.y as i32 + d.dy as i32),
        }
    }
}

impl Delta {
    /// True when exactly one component is nonzero.
    pub open spec fn spec_is_axial(self) -> bool {
        (self.dx == 0) != (self.dy == 0)
    }

    /// True when the delta is one step along one axis.
    pub open spec fn spec_is_axial_unit(self) -> bool {
        self.spec_is_axial() && abs_int(self.dx as int) + abs_int(self.dy as int) == 1
    }

    /// The unit delta along the delta's dominant axis, preferring y on a tie.
    pub open spec fn spec_axial_unit(self) -> Delta {
        if self.dx == 0 && self.dy == 0 {
            (Delta { dx: 0, dy: 0 })
        } else if abs_int(self.dx as int) > abs_int(self.dy as int) {
            (Delta { dx: sign_int(self.dx as int) as i8, dy: 0 })
        } else {
            (Delta { dx: 0, dy: sign_int(self.dy as int) as i8 })
        }
    }

    /// The zero delta.
    pub fn zero() -> (r: Delta)
        ensures
            r == (Delta { dx: 0i8, dy: 0i8 }),
    {
        Delta { dx: 0, dy: 0 }
    }

    /// One step in the positive x direction.
    pub fn xp() -> (r: Delta)
        ensures
            r == (Delta { dx: 1i8, dy: 0i8 }),
    {
        Delta { dx: 1, dy: 0 }
    }

    /// One step in the negative x direction.
    pub fn xn() -> (r: Delta)
        ensures
            r == (Delta { dx: -1i8, dy: 0i8 }),
    {
        Delta { dx: -1, dy: 0 }
    }

    /// One step in the positive y direction.
    pub fn yp() -> (r: Delta)
        ensures
            r == (Delta { dx: 0i8, dy: 1i8 }),
    {
        Delta { dx: 0, dy: 1 }
    }

    /// One step in the negative y direction.
    pub fn yn() -> (r: Delta)
        ensures
            r == (Delta { dx: 0i8, dy: -1i8 }),
    {
        Delta { dx: 0, dy: -1 }
    }

    /// The four axial unit deltas.
    pub fn axial_units() -> (r: Vec<Delta>)
        ensures
            r@ == seq![
                (Delta { dx: 1i8, dy: 0i8 }),
                (Delta { dx: -1i8, dy: 0i8 }),
                (Delta { dx: 0i8, dy: 1i8 }),
                (Delta { dx: 0i8, dy: -1i8 }),
            ],
    {
        let mut v: Vec<Delta> = Vec::new();
        v.push(Delta { dx: 1, dy: 0 });
        v.push(Delta { dx: -1, dy: 0 });
        v.push(Delta { dx: 0, dy: 1 });
        v.push(Delta { dx: 0, dy: -1 });
        proof {
            assert(v@ =~= seq![
                (Delta { dx: 1i8, dy: 0i8 }),
                (Delta { dx: -1i8, dy: 0i8 }),
                (Delta { dx: 0i8, dy: 1i8 }),
                (Delta { dx: 0i8, dy: -1i8 }),
            ]);
        }
        v
    }

    /// True when both components are zero.
    pub fn is_zero(self) -> (r: bool)
        ensures
            r == (self.dx == 0 && self.dy == 0),
    {
        self.dx == 0 && self.dy == 0
    }

    /// True when exactly one component is nonzero.
    pub fn is_axial(self) -> (r: bool)
        ensures
            r == self.spec_is_axial(),
    {
        (self.dx == 0) != (self.dy == 0)
    }

    /// The unit delta along the delta's dominant axis, preferring y on a tie.
    pub fn axial_unit(self) -> (r: Delta)
        ensures
            r == self.spec_axial_unit(),
    {
        if self.dx == 0 && self.dy == 0 {
            Delta { dx: 0, dy: 0 }
        } else if abs_i8(self.dx) > abs_i8(self.dy) {
            Delta { dx: sign_i8(self.dx), dy: 0 }
        } else {
            Delta { dx: 0, dy: sign_i8(self.dy) }
        }
    }

    /// The delta scaled by an integer factor, components clamped into `i8`.
    pub fn times(self, k: i8) -> (r: Delta)
        ensures
            r.dx == sat_i8(self.dx * k),
            r.dy == sat_i8(self.dy * k),
    {
        proof {
            assert((self.dx as i32 as int) * (k as i32 as int) == self.dx as int * k as int);
            assert(-16384 <= self.dx as int * k as int <= 16384) by (nonlinear_arith);
            assert(-16384 <= self.dy as int * k as int <= 16384) by (nonlinear_arith);
        }
        Delta { dx: clamp_to_i8(self.dx as i32 * k as i32), dy: clamp_to_i8(self.dy as i32 * k as i32) }
    }

    /// Manhattan length of the delta.
    pub fn displacement(self) -> (r: usize)
        ensures
            r == abs_int(self.dx as int) + abs_int(self.dy as int),
    {
        (abs_i8(self.dx) + abs_i8(self.dy)) as usize
    }

    /// The delta rotated a quarter turn, components clamped into `i8`.
    pub fn perpendicular(self) -> (r: Delta)
        ensures
            r.dx == sat_i8(-(self.dy as int)),
            r.dy == self.dx,
    {
        Delta { dx: clamp_to_i8(-(self.dy as i32)), dy: self.dx }
    }
}

} // verus!
