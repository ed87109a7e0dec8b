use vstd::prelude::*;

verus! {

/// A grid cell: `x` and `y` span a layer, `z` selects the layer.
#[derive(Clone, Copy, Debug, PartialEq, Eq, Structural, Hash)]
pub struct Position {
    pub x: i32,
    pub y: i32,
    pub z: i32,
}

/// Index of an entity's image in the texture atlas.
#[derive(Clone, Copy, Debug, PartialEq, Eq, Structural)]
pub struct Texture {
    pub atlas_index: u32,
}

pub open spec fn abs_diff(a: int, b: int) -> nat {
    if a >= b {
        (a - b) as nat
    } else {
        (b - a) as nat
    }
}

/// `b` shares a side with `a`, possibly one layer up or down: one unit
/// across, and at most one unit up or down.
pub open spec fn grid_step(a: Position, b: Position) -> bool {
    &&& abs_diff(a.x as int, b.x as int) + abs_diff(a.y as int, b.y as int) == 1
    &&& abs_diff(a.z as int, b.z as int) <= 1
}

impl Position {
    pub fn new(x: i32, y: i32, z: i32) -> (r: Self)
        ensures
            r == (Position { x, y, z }),
    {
        Position { x, y, z }
    }

    /// Sum of the per-axis distances between two cells.
    pub open spec fn distance(self, other: Position) -> nat {
        abs_diff(self.x as int, other.x as int) + abs_diff(self.y as int, other.y as int)
            + abs_diff(self.z as int, other.z as int)
    }

    /// Two cells of one layer that share a side.
    pub open spec fn adjacent(self, other: Position) -> bool {
        self.z == other.z && abs_diff(self.x as int, other.x as int) + abs_diff(
            self.y as int,
            other.y as int,
        ) == 1
    }

    pub fn get_distance_from(&self, other: &Self) -> (r: u64)
        ensures
            r == self.distance(*other),
    {
        let dx = (self.x as i64 - other.x as i64);
        let dy = (self.y as i64 - other.y as i64);
        let dz = (self.z as i64 - other.z as i64);
        let ax: u64 = if dx >= 0 { dx as u64 } else { (-dx) as u64 };
        let ay: u64 = if dy >= 0 { dy as u64 } else { (-dy) as u64 };
        let az: u64 = if dz >= 0 { dz as u64 } else { (-dz) as u64 };
        ax + ay + az
    }

    pub fn is_adjacent_to(&self, other: &Self) -> (r: bool)
        ensures
            r == self.adjacent(*other),
    {
        self.z == other.z && self.get_distance_from(other) == 1
    }
}

} // verus!
