use vstd::prelude::*;

use crate::pos::Vec3i;

verus! {

/// One of the six axis-aligned face directions, numbered as the renderer
/// expects them: -x, +x, -z, +z, -y, +y.
#[derive(Clone, Copy, PartialEq, Eq, Structural, Debug)]
pub struct Direction {
    pub id: u8,
}

impl Direction {
    /// The outward normal of this direction.
    pub open spec fn spec_norm(self) -> Vec3i {
        if self.id == 0 {
            Vec3i { x: -1i32, y: 0, z: 0 }
        } else if self.id == 1 {
            Vec3i { x: 1, y: 0, z: 0 }
        } else if self.id == 2 {
            Vec3i { x: 0, y: 0, z: -1i32 }
        } else if self.id == 3 {
            Vec3i { x: 0, y: 0, z: 1 }
        } else if self.id == 4 {
            Vec3i { x: 0, y: -1i32, z: 0 }
        } else {
            Vec3i { x: 0, y: 1, z: 0 }
        }
    }

    pub fn get_norm(&self) -> (r: Vec3i)
        ensures
            r == self.spec_norm(),
    {
        if self.id == 0 {
            Vec3i { x: -1, y: 0, z: 0 }
        } else if self.id == 1 {
            Vec3i { x: 1, y: 0, z: 0 }
        } else if self.id == 2 {
            Vec3i { x: 0, y: 0, z: -1 }
        } else if self.id == 3 {
            Vec3i { x: 0, y: 0, z: 1 }
        } else if self.id == 4 {
            Vec3i { x: 0, y: -1, z: 0 }
        } else {
            Vec3i { x: 0, y: 1, z: 0 }
        }
    }

    /// Rotates an offset given in face-local coordinates (where +y is the
    /// face normal) into world coordinates.
    pub open spec fn spec_transform(self, pos: Vec3i) -> Vec3i {
        if self.id == 0 {
            Vec3i { x: (0 - pos.y) as i32, y: pos.x, z: pos.z }
        } else if self.id == 1 {
            Vec3i { x: pos.y, y: pos.x, z: (0 - pos.z) as i32 }
        } else if self.id == 2 {
            Vec3i { x: (0 - pos.z) as i32, y: pos.x, z: (0 - pos.y) as i32 }
        } else if self.id == 3 {
            Vec3i { x: pos.z, y: pos.x, z: pos.y }
        } else if self.id == 4 {
            Vec3i { x: pos.x, y: (0 - pos.y) as i32, z: (0 - pos.z) as i32 }
        } else {
            pos
        }
    }

    pub fn transform(&self, pos: Vec3i) -> (r: Vec3i)
        requires
            pos.x > i32::MIN,
            pos.y > i32::MIN,
            pos.z > i32::MIN,
        ensures
            r == self.spec_transform(pos),
    {
        if self.id == 0 {
            Vec3i { x: -pos.y, y: pos.x, z: pos.z }
        } else if self.id == 1 {
            Vec3i { x: pos.y, y: pos.x, z: -pos.z }
        } else if self.id == 2 {
            Vec3i { x: -pos.z, y: pos.x, z: -pos.y }
        } else if self.id == 3 {
            Vec3i { x: pos.z, y: pos.x, z: pos.y }
        } else if self.id == 4 {
            Vec3i { x: pos.x, y: -pos.y, z: -pos.z }
        } else {
            pos
        }
    }
}

} // verus!
