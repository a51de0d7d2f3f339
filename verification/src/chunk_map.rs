//! The in-memory spatial index: at most one owned chunk per coordinate,
//! touched only by the thread that drives the world.

use vstd::prelude::*;

use std::collections::HashMap;

use crate::block::Block;
use crate::chunk::Chunk;
use crate::pos::Vec3i;

verus! {

broadcast use vstd::std_specs::hash::group_hash_axioms;

pub struct ChunkMap {
    pub hash_map: HashMap<u128, Box<Chunk>>,
}

impl ChunkMap {
    /// The underlying map from packed coordinates to chunks.
    pub open spec fn map_view(&self) -> Map<u128, Box<Chunk>> {
        self.hash_map@
    }

    pub open spec fn contains_coord(&self, pos: Vec3i) -> bool {
        self.map_view().contains_key(pos.spec_key())
    }

    pub open spec fn chunk_at(&self, pos: Vec3i) -> Chunk {
        *self.map_view()[pos.spec_key()]
    }

    /// Every stored chunk satisfies the chunk invariant.
    pub open spec fn wf(&self) -> bool {
        forall|k: u128|
            self.map_view().contains_key(k) ==> (#[trigger] self.map_view()[k]).wf()
    }

    /// The block type the world shows at a voxel coordinate: the owning
    /// chunk's voxel if that chunk is resident, air otherwise.
    pub open spec fn spec_block_at(&self, pos: Vec3i) -> u16 {
        if self.contains_coord(pos.spec_chunk_of()) {
            self.chunk_at(pos.spec_chunk_of())@[pos.spec_local_of().spec_lin()]
        } else {
            0
        }
    }

    pub fn new() -> (r: ChunkMap)
        ensures
            r.map_view() == Map::<u128, Box<Chunk>>::empty(),
            r.wf(),
    {
        ChunkMap { hash_map: HashMap::new() }
    }

    pub fn get_chunk(&self, pos: Vec3i) -> (r: Option<&Box<Chunk>>)
        ensures
            match r {
                Some(c) => self.contains_coord(pos) && *c == self.map_view()[pos.spec_key()],
                None => !self.contains_coord(pos),
            },
    {
        self.hash_map.get(&pos.key())
    }

    /// Inserts an owned chunk, replacing any chunk already at `pos`.
    pub fn insert(&mut self, pos: Vec3i, chunk: Box<Chunk>)
        ensures
            final(self).map_view() == old(self).map_view().insert(pos.spec_key(), chunk),
    {
        self.hash_map.insert(pos.key(), chunk);
    }

    /// Removes and returns the chunk at `pos`, if any.
    pub fn remove(&mut self, pos: Vec3i) -> (r: Option<Box<Chunk>>)
        ensures
            final(self).map_view() == old(self).map_view().remove(pos.spec_key()),
            match r {
                Some(c) => old(self).contains_coord(pos) && c == old(self).map_view()[
                    pos.spec_key()
                ],
                None => !old(self).contains_coord(pos),
            },
    {
        self.hash_map.remove(&pos.key())
    }

    /// Reads the block at a world voxel coordinate, returning air for any
    /// coordinate whose chunk is not resident — never an error.
    pub fn get_block(&self, pos: Vec3i) -> (r: Block)
        requires
            self.wf(),
        ensures
            r.block_type == self.spec_block_at(pos),
    {
        let chunk_pos = pos.chunk_of();
        match self.get_chunk(chunk_pos) {
            Some(chunk) => chunk.get_block(pos.local_of()),
            None => Block { block_type: 0 },
        }
    }
}

} // verus!
