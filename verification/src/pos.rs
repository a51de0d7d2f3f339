use vstd::prelude::*;

verus! {

/// An integer 3-vector: world voxel coordinates, chunk coordinates and
/// region coordinates are all of this type.
#[derive(Clone, Copy, PartialEq, Eq, Structural, Hash, Debug)]
pub struct Vec3i {
    pub x: i32,
    pub y: i32,
    pub z: i32,
}

/// Chunk coordinates obtained from a voxel coordinate by `>> 5` always lie
/// in this range, so adding small offsets to them can never overflow.
pub open spec fn chunk_coord_in_range(p: Vec3i) -> bool {
    &&& -0x4000000 <= p.x <= 0x3ffffff
    &&& -0x4000000 <= p.y <= 0x3ffffff
    &&& -0x4000000 <= p.z <= 0x3ffffff
}

/// A chunk-local coordinate: every component in `0 .. 32`.
pub open spec fn local_in_range(p: Vec3i) -> bool {
    &&& 0 <= p.x < 32
    &&& 0 <= p.y < 32
    &&& 0 <= p.z < 32
}

impl Vec3i {
    /// The three coordinates packed into one word, so spatial maps can be
    /// keyed by a plain integer.
    pub open spec fn spec_key(self) -> u128 {
        ((self.x as u32 as u128) << 64) | ((self.y as u32 as u128) << 32) | (self.z as u32 as u128)
    }

    pub fn key(self) -> (k: u128)
        ensures
            k == self.spec_key(),
    {
        ((self.x as u32 as u128) << 64) | ((self.y as u32 as u128) << 32) | (self.z as u32 as u128)
    }

    /// The coordinate of the chunk containing this voxel (floor division by
    /// the chunk edge length, as an arithmetic shift).
    pub open spec fn spec_chunk_of(self) -> Vec3i {
        Vec3i { x: self.x >> 5, y: self.y >> 5, z: self.z >> 5 }
    }

    pub fn chunk_of(self) -> (r: Vec3i)
        ensures
            r == self.spec_chunk_of(),
            chunk_coord_in_range(r),
    {
        proof {
            lemma_voxel_decompose(self.x);
            lemma_voxel_decompose(self.y);
            lemma_voxel_decompose(self.z);
        }
        Vec3i { x: self.x >> 5, y: self.y >> 5, z: self.z >> 5 }
    }

    /// This voxel's coordinate within its chunk.
    pub open spec fn spec_local_of(self) -> Vec3i {
        Vec3i { x: self.x & 31, y: self.y & 31, z: self.z & 31 }
    }

    pub fn local_of(self) -> (r: Vec3i)
        ensures
            r == self.spec_local_of(),
            local_in_range(r),
    {
        proof {
            lemma_voxel_decompose(self.x);
            lemma_voxel_decompose(self.y);
            lemma_voxel_decompose(self.z);
        }
        Vec3i { x: self.x & 31, y: self.y & 31, z: self.z & 31 }
    }

    /// The linear index of a chunk-local coordinate in a flat
    /// 32 * 32 * 32 array.
    pub open spec fn spec_lin(self) -> int {
        self.x + 32 * self.y + 1024 * self.z
    }

    pub fn lin(self) -> (r: usize)
        requires
            local_in_range(self),
        ensures
            r == self.spec_lin(),
            r < 32768,
    {
        (self.x + 32 * self.y + 1024 * self.z) as usize
    }

    /// The coordinate of the region containing this chunk: regions are
    /// 16 chunks wide, 4 high and 16 deep.
    pub open spec fn spec_region_of(self) -> Vec3i {
        Vec3i { x: self.x >> 4, y: self.y >> 2, z: self.z >> 4 }
    }

    pub fn region_of(self) -> (r: Vec3i)
        ensures
            r == self.spec_region_of(),
    {
        Vec3i { x: self.x >> 4, y: self.y >> 2, z: self.z >> 4 }
    }

    pub fn offset(self, dx: i32, dy: i32, dz: i32) -> (r: Vec3i)
        requires
            i32::MIN <= self.x + dx <= i32::MAX,
            i32::MIN <= self.y + dy <= i32::MAX,
            i32::MIN <= self.z + dz <= i32::MAX,
        ensures
            r.x == self.x + dx,
            r.y == self.y + dy,
            r.z == self.z + dz,
    {
        Vec3i { x: self.x + dx, y: self.y + dy, z: self.z + dz }
    }
}

/// Packed keys are injective: distinct coordinates give distinct keys.
pub proof fn lemma_key_injective(a: Vec3i, b: Vec3i)
    requires
        a.spec_key() == b.spec_key(),
    ensures
        a == b,
{
    lemma_key_parts(a.x, a.y, a.z, b.x, b.y, b.z);
}

proof fn lemma_key_parts(ax: i32, ay: i32, az: i32, bx: i32, by: i32, bz: i32)
    by (bit_vector)
    requires
        ((ax as u32 as u128) << 64) | ((ay as u32 as u128) << 32) | (az as u32 as u128) == ((
        bx as u32 as u128) << 64) | ((by as u32 as u128) << 32) | (bz as u32 as u128),
    ensures
        ax == bx,
        ay == by,
        az == bz,
{
}

/// A voxel coordinate splits into its chunk coordinate and its chunk-local
/// coordinate, and the split is exact.
pub proof fn lemma_voxel_decompose(x: i32)
    by (bit_vector)
    ensures
        -0x4000000 <= (x >> 5) <= 0x3ffffff,
        0 <= (x & 31) < 32,
        (x >> 5) * 32 + (x & 31) == x,
{
}

} // verus!
