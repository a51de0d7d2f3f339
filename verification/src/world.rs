//! The streaming coordinator: keeps the in-memory chunk index consistent
//! with player movement and edits, tracks which chunks need re-meshing,
//! and answers raycasts against the loaded world.
//!
//! The world owns no threads and no files: `tick` hands back the chunks to
//! save and the coordinates to request, and the caller runs the pipeline.

use vstd::prelude::*;

use crate::block::Block;
use crate::chunk::Chunk;
use crate::chunk_loader::{offset_done, ChunkLoader, RENDER_DIST, RENDER_DIST_HEIGHT};
use crate::chunk_map::ChunkMap;
use crate::mesh::{create_mesh, mesh_lists_ok, meshable, Face};
use crate::pos::{chunk_coord_in_range, lemma_key_injective, Vec3i};

verus! {

/// Whether chunk `c` lies within the render-distance box around the
/// player chunk `p`.
pub open spec fn in_render_box(c: Vec3i, p: Vec3i) -> bool {
    &&& p.x - RENDER_DIST <= c.x <= p.x + RENDER_DIST
    &&& p.y - RENDER_DIST_HEIGHT <= c.y <= p.y + RENDER_DIST_HEIGHT
    &&& p.z - RENDER_DIST <= c.z <= p.z + RENDER_DIST
}

pub struct World {
    pub chunk_map: ChunkMap,
    pub chunk_loader: ChunkLoader,
    pub chunk_updates: Vec<Vec3i>,
    pub resident: Vec<Vec3i>,
}

impl World {
    /// The coordinates whose meshes are stale.
    pub open spec fn dirty(&self) -> Seq<Vec3i> {
        self.chunk_updates@
    }

    pub open spec fn wf(&self) -> bool {
        &&& self.chunk_map.wf()
        &&& self.chunk_loader.wf()
        &&& self.chunk_updates@.no_duplicates()
        &&& forall|i: int|
            0 <= i < self.chunk_updates@.len() ==> chunk_coord_in_range(
                #[trigger] self.chunk_updates@[i],
            )
        &&& self.resident@.no_duplicates()
        &&& forall|i: int|
            0 <= i < self.resident@.len() ==> self.chunk_map.contains_coord(
                #[trigger] self.resident@[i],
            ) && chunk_coord_in_range(self.resident@[i])
        &&& forall|k: u128|
            self.chunk_map.map_view().contains_key(k) ==> exists|i: int|
                0 <= i < self.resident@.len() && (#[trigger] self.resident@[i]).spec_key() == k
    }

    pub fn new() -> (r: World)
        ensures
            r.wf(),
            r.chunk_map.map_view() == Map::<u128, Box<Chunk>>::empty(),
            r.dirty().len() == 0,
    {
        World {
            chunk_map: ChunkMap::new(),
            chunk_loader: ChunkLoader::new(),
            chunk_updates: Vec::new(),
            resident: Vec::new(),
        }
    }

    /// Marks a coordinate\'s mesh stale, once.
    fn insert_dirty(&mut self, c: Vec3i)
        requires
            old(self).wf(),
            chunk_coord_in_range(c),
        ensures
            final(self).wf(),
            final(self).chunk_map == old(self).chunk_map,
            final(self).chunk_loader == old(self).chunk_loader,
            final(self).resident@ == old(self).resident@,
            final(self).dirty().contains(c),
            forall|d: Vec3i| old(self).dirty().contains(d) ==> final(self).dirty().contains(d),
            forall|d: Vec3i|
                final(self).dirty().contains(d) ==> old(self).dirty().contains(d) || d == c,
    {
        let mut i: usize = 0;
        while i < self.chunk_updates.len()
            invariant
                old(self).wf(),
                chunk_coord_in_range(c),
                self.chunk_map == old(self).chunk_map,
                self.chunk_loader == old(self).chunk_loader,
                self.chunk_updates@ == old(self).chunk_updates@,
                self.resident@ == old(self).resident@,
                i <= self.chunk_updates@.len(),
                forall|j: int| 0 <= j < i ==> self.chunk_updates@[j] != c,
            decreases self.chunk_updates@.len() - i,
        {
            if self.chunk_updates[i] == c {
                proof {
                    assert(self.dirty().contains(c));
                }
                return ;
            }
            i += 1;
        }
        self.chunk_updates.push(c);
        proof {
            assert(self.dirty()[self.dirty().len() - 1] == c);
            assert(self.dirty().contains(c));
            assert forall|a: int, b: int|
                0 <= a < b < self.chunk_updates@.len() implies self.chunk_updates@[a]
                != self.chunk_updates@[b] by {
                if b == self.chunk_updates@.len() - 1 {
                    assert(old(self).chunk_updates@[a] != c);
                }
            }
            assert forall|d: Vec3i| old(self).dirty().contains(d) implies self.dirty().contains(
                d,
            ) by {
                let j = choose|j: int|
                    0 <= j < old(self).dirty().len() && old(self).dirty()[j] == d;
                assert(self.dirty()[j] == d);
            }
            assert forall|d: Vec3i| self.dirty().contains(d) implies old(self).dirty().contains(d)
                || d == c by {
                let j = choose|j: int| 0 <= j < self.dirty().len() && self.dirty()[j] == d;
                if j < self.dirty().len() - 1 {
                    assert(old(self).dirty()[j] == d);
                }
            }
        }
    }

    /// Installs a delivered chunk: clears its in-flight marker, indexes it,
    /// and marks it and its six face-adjacent neighbors stale.
    pub fn add_chunk(&mut self, pos: Vec3i, chunk: Box<Chunk>)
        requires
            old(self).wf(),
            chunk_coord_in_range(pos),
            chunk.wf(),
        ensures
            final(self).wf(),
            final(self).chunk_map.map_view() == old(self).chunk_map.map_view().insert(
                pos.spec_key(),
                chunk,
            ),
            final(self).chunk_loader.in_flight() == old(self).chunk_loader.in_flight().remove(
                pos.spec_key(),
            ),
            final(self).dirty().contains(pos),
            forall|d: Vec3i| old(self).dirty().contains(d) ==> final(self).dirty().contains(d),
            chunk_coord_in_range(Vec3i { x: (pos.x + 1) as i32, y: pos.y, z: pos.z }) ==> final(self).dirty().contains(Vec3i { x: (pos.x + 1) as i32, y: pos.y, z: pos.z }),
            chunk_coord_in_range(Vec3i { x: (pos.x - 1) as i32, y: pos.y, z: pos.z }) ==> final(self).dirty().contains(Vec3i { x: (pos.x - 1) as i32, y: pos.y, z: pos.z }),
            chunk_coord_in_range(Vec3i { x: pos.x, y: (pos.y + 1) as i32, z: pos.z }) ==> final(self).dirty().contains(Vec3i { x: pos.x, y: (pos.y + 1) as i32, z: pos.z }),
            chunk_coord_in_range(Vec3i { x: pos.x, y: (pos.y - 1) as i32, z: pos.z }) ==> final(self).dirty().contains(Vec3i { x: pos.x, y: (pos.y - 1) as i32, z: pos.z }),
            chunk_coord_in_range(Vec3i { x: pos.x, y: pos.y, z: (pos.z + 1) as i32 }) ==> final(self).dirty().contains(Vec3i { x: pos.x, y: pos.y, z: (pos.z + 1) as i32 }),
            chunk_coord_in_range(Vec3i { x: pos.x, y: pos.y, z: (pos.z - 1) as i32 }) ==> final(self).dirty().contains(Vec3i { x: pos.x, y: pos.y, z: (pos.z - 1) as i32 }),
            forall|d: Vec3i|
                final(self).dirty().contains(d) ==> old(self).dirty().contains(d) || d == pos || d
                    == (Vec3i { x: (pos.x + 1) as i32, y: pos.y, z: pos.z }) || d == (Vec3i {
                    x: (pos.x - 1) as i32,
                    y: pos.y,
                    z: pos.z,
                }) || d == (Vec3i { x: pos.x, y: (pos.y + 1) as i32, z: pos.z }) || d == (Vec3i {
                    x: pos.x,
                    y: (pos.y - 1) as i32,
                    z: pos.z,
                }) || d == (Vec3i { x: pos.x, y: pos.y, z: (pos.z + 1) as i32 }) || d == (Vec3i {
                    x: pos.x,
                    y: pos.y,
                    z: (pos.z - 1) as i32,
                }),
    {
        self.chunk_loader.complete(pos);
        let already = match self.chunk_map.get_chunk(pos) {
            Some(_) => true,
            None => false,
        };
        self.chunk_map.insert(pos, chunk);
        if !already {
            self.resident.push(pos);
            proof {
                assert forall|a: int, b: int|
                    0 <= a < b < self.resident@.len() implies self.resident@[a] != self.resident@[
                    b
                ] by {
                    if b == self.resident@.len() - 1 {
                        if self.resident@[a] == pos {
                            assert(old(self).chunk_map.contains_coord(pos));
                        }
                    }
                }
            }
        }
        proof {
            assert forall|i: int|
                0 <= i < self.resident@.len() implies self.chunk_map.contains_coord(
                #[trigger] self.resident@[i],
            ) && chunk_coord_in_range(self.resident@[i]) by {
                if i < old(self).resident@.len() {
                    assert(self.resident@[i] == old(self).resident@[i]);
                    assert(old(self).chunk_map.contains_coord(old(self).resident@[i]));
                    if self.resident@[i].spec_key() == pos.spec_key() {
                        lemma_key_injective(self.resident@[i], pos);
                    }
                }
            }
            assert forall|k: u128|
                self.chunk_map.map_view().contains_key(k) implies exists|i: int|
                0 <= i < self.resident@.len() && (#[trigger] self.resident@[i]).spec_key()
                    == k by {
                if k == pos.spec_key() && !already {
                    assert(self.resident@[self.resident@.len() - 1].spec_key() == k);
                } else {
                    assert(old(self).chunk_map.map_view().contains_key(k));
                    let i = choose|i: int|
                        0 <= i < old(self).resident@.len() && (#[trigger] old(
                            self,
                        ).resident@[i]).spec_key() == k;
                    assert(self.resident@[i].spec_key() == k);
                }
            }
        }
        self.insert_dirty(pos);
        self.mark_neighbor(pos, 1, 0, 0);
        self.mark_neighbor(pos, -1, 0, 0);
        self.mark_neighbor(pos, 0, 1, 0);
        self.mark_neighbor(pos, 0, -1, 0);
        self.mark_neighbor(pos, 0, 0, 1);
        self.mark_neighbor(pos, 0, 0, -1);
    }

    /// Marks a face-adjacent neighbor stale, when its coordinate is
    /// representable.
    fn mark_neighbor(&mut self, pos: Vec3i, dx: i32, dy: i32, dz: i32)
        requires
            old(self).wf(),
            chunk_coord_in_range(pos),
            -1 <= dx <= 1,
            -1 <= dy <= 1,
            -1 <= dz <= 1,
        ensures
            final(self).wf(),
            final(self).chunk_map == old(self).chunk_map,
            final(self).chunk_loader == old(self).chunk_loader,
            final(self).resident@ == old(self).resident@,
            forall|d: Vec3i| old(self).dirty().contains(d) ==> final(self).dirty().contains(d),
            chunk_coord_in_range(
                Vec3i { x: (pos.x + dx) as i32, y: (pos.y + dy) as i32, z: (pos.z + dz) as i32 },
            ) ==> final(self).dirty().contains(
                Vec3i { x: (pos.x + dx) as i32, y: (pos.y + dy) as i32, z: (pos.z + dz) as i32 },
            ),
            forall|d: Vec3i|
                final(self).dirty().contains(d) ==> old(self).dirty().contains(d) || d == (Vec3i {
                    x: (pos.x + dx) as i32,
                    y: (pos.y + dy) as i32,
                    z: (pos.z + dz) as i32,
                }),
    {
        let n = pos.offset(dx, dy, dz);
        if n.x >= -0x4000000 && n.x <= 0x3ffffff && n.y >= -0x4000000 && n.y <= 0x3ffffff && n.z
            >= -0x4000000 && n.z <= 0x3ffffff {
            self.insert_dirty(n);
        }
    }

    /// Writes one voxel of the loaded world.  A write to an unloaded chunk
    /// does nothing.  The owning chunk\'s mesh is marked stale, as is the
    /// neighbor mesh across any chunk boundary the edit touches.
    pub fn set_block(&mut self, pos: Vec3i, value: Block)
        requires
            old(self).wf(),
        ensures
            final(self).wf(),
            final(self).chunk_loader == old(self).chunk_loader,
            !old(self).chunk_map.contains_coord(pos.spec_chunk_of()) ==> final(self)
                .chunk_map.map_view() == old(self).chunk_map.map_view()
                && final(self).dirty() == old(self).dirty(),
            old(self).chunk_map.contains_coord(pos.spec_chunk_of()) ==> ({
                let cp = pos.spec_chunk_of();
                let lp = pos.spec_local_of();
                &&& final(self).chunk_map.contains_coord(cp)
                &&& final(self).chunk_map.chunk_at(cp)@ == old(self).chunk_map.chunk_at(cp)@.update(
                    lp.spec_lin(),
                    value.block_type,
                )
                &&& final(self).chunk_map.chunk_at(cp).wf()
                &&& forall|c: Vec3i|
                    c != cp ==> final(self).chunk_map.contains_coord(c) == old(
                        self,
                    ).chunk_map.contains_coord(c) && (old(self).chunk_map.contains_coord(c)
                        ==> final(self).chunk_map.chunk_at(c) == old(self).chunk_map.chunk_at(c))
                &&& final(self).dirty().contains(cp)
                &&& (lp.x == 0 && chunk_coord_in_range(
                    Vec3i { x: (cp.x - 1) as i32, y: cp.y, z: cp.z },
                ) ==> final(self).dirty().contains(
                    Vec3i { x: (cp.x - 1) as i32, y: cp.y, z: cp.z },
                ))
                &&& (lp.x == 31 && chunk_coord_in_range(
                    Vec3i { x: (cp.x + 1) as i32, y: cp.y, z: cp.z },
                ) ==> final(self).dirty().contains(
                    Vec3i { x: (cp.x + 1) as i32, y: cp.y, z: cp.z },
                ))
                &&& (lp.y == 0 && chunk_coord_in_range(
                    Vec3i { x: cp.x, y: (cp.y - 1) as i32, z: cp.z },
                ) ==> final(self).dirty().contains(
                    Vec3i { x: cp.x, y: (cp.y - 1) as i32, z: cp.z },
                ))
                &&& (lp.y == 31 && chunk_coord_in_range(
                    Vec3i { x: cp.x, y: (cp.y + 1) as i32, z: cp.z },
                ) ==> final(self).dirty().contains(
                    Vec3i { x: cp.x, y: (cp.y + 1) as i32, z: cp.z },
                ))
                &&& (lp.z == 0 && chunk_coord_in_range(
                    Vec3i { x: cp.x, y: cp.y, z: (cp.z - 1) as i32 },
                ) ==> final(self).dirty().contains(
                    Vec3i { x: cp.x, y: cp.y, z: (cp.z - 1) as i32 },
                ))
                &&& (lp.z == 31 && chunk_coord_in_range(
                    Vec3i { x: cp.x, y: cp.y, z: (cp.z + 1) as i32 },
                ) ==> final(self).dirty().contains(
                    Vec3i { x: cp.x, y: cp.y, z: (cp.z + 1) as i32 },
                ))
                &&& forall|d: Vec3i|
                    final(self).dirty().contains(d) ==> old(self).dirty().contains(d) || d == cp
                        || (lp.x == 0 && d == (Vec3i { x: (cp.x - 1) as i32, y: cp.y, z: cp.z }))
                        || (lp.x == 31 && d == (Vec3i { x: (cp.x + 1) as i32, y: cp.y, z: cp.z }))
                        || (lp.y == 0 && d == (Vec3i { x: cp.x, y: (cp.y - 1) as i32, z: cp.z }))
                        || (lp.y == 31 && d == (Vec3i { x: cp.x, y: (cp.y + 1) as i32, z: cp.z }))
                        || (lp.z == 0 && d == (Vec3i { x: cp.x, y: cp.y, z: (cp.z - 1) as i32 }))
                        || (lp.z == 31 && d == (Vec3i { x: cp.x, y: cp.y, z: (cp.z + 1) as i32 }))
            }),
    {
        let chunk_pos = pos.chunk_of();
        let taken = self.chunk_map.remove(chunk_pos);
        match taken {
            Some(boxed) => {
                let mut inner: Chunk = *boxed;
                let loc_pos = pos.local_of();
                inner.set_block(loc_pos, value);
                self.chunk_map.insert(chunk_pos, Box::new(inner));
                proof {
                    assert forall|c: Vec3i| c != chunk_pos implies self.chunk_map.contains_coord(c)
                        == old(self).chunk_map.contains_coord(c) && (old(
                        self,
                    ).chunk_map.contains_coord(c) ==> self.chunk_map.chunk_at(c) == old(
                        self,
                    ).chunk_map.chunk_at(c)) by {
                        if c.spec_key() == chunk_pos.spec_key() {
                            lemma_key_injective(c, chunk_pos);
                        }
                    }
                    assert forall|i: int|
                        0 <= i < self.resident@.len() implies self.chunk_map.contains_coord(
                        #[trigger] self.resident@[i],
                    ) && chunk_coord_in_range(self.resident@[i]) by {
                        assert(old(self).chunk_map.contains_coord(old(self).resident@[i]));
                        if self.resident@[i].spec_key() == chunk_pos.spec_key() {
                            lemma_key_injective(self.resident@[i], chunk_pos);
                        }
                    }
                    assert forall|k: u128|
                        self.chunk_map.map_view().contains_key(k) implies exists|i: int|
                        0 <= i < self.resident@.len() && (#[trigger] self.resident@[i]).spec_key()
                            == k by {
                        assert(old(self).chunk_map.map_view().contains_key(k));
                        let i = choose|i: int|
                            0 <= i < old(self).resident@.len() && (#[trigger] old(
                                self,
                            ).resident@[i]).spec_key() == k;
                        assert(self.resident@[i].spec_key() == k);
                    }
                }
                self.insert_dirty(chunk_pos);
                if loc_pos.x == 0 {
                    self.mark_neighbor(chunk_pos, -1, 0, 0);
                } else if loc_pos.x == 31 {
                    self.mark_neighbor(chunk_pos, 1, 0, 0);
                }
                if loc_pos.y == 0 {
                    self.mark_neighbor(chunk_pos, 0, -1, 0);
                } else if loc_pos.y == 31 {
                    self.mark_neighbor(chunk_pos, 0, 1, 0);
                }
                if loc_pos.z == 0 {
                    self.mark_neighbor(chunk_pos, 0, 0, -1);
                } else if loc_pos.z == 31 {
                    self.mark_neighbor(chunk_pos, 0, 0, 1);
                }
            },
            None => {
                proof {
                    assert(self.chunk_map.map_view() =~= old(self).chunk_map.map_view());
                }
            },
        }
    }

    /// Evicts every resident chunk outside the render-distance box around
    /// the player chunk, handing the evicted chunks back for saving.
    pub fn unload_chunks(&mut self, player_pos: Vec3i) -> (evicted: Vec<(Vec3i, Box<Chunk>)>)
        requires
            old(self).wf(),
            chunk_coord_in_range(player_pos),
        ensures
            final(self).wf(),
            final(self).chunk_loader == old(self).chunk_loader,
            final(self).dirty() == old(self).dirty(),
            forall|c: Vec3i| #![trigger c.spec_key()]
                final(self).chunk_map.contains_coord(c) <==> (old(self).chunk_map.contains_coord(c)
                    && in_render_box(c, player_pos)),
            forall|c: Vec3i|
                final(self).chunk_map.contains_coord(c) ==> final(self).chunk_map.chunk_at(c)
                    == old(self).chunk_map.chunk_at(c),
            forall|i: int|
                0 <= i < evicted@.len() ==> {
                    let e = #[trigger] evicted@[i];
                    &&& old(self).chunk_map.contains_coord(e.0)
                    &&& !in_render_box(e.0, player_pos)
                    &&& *e.1 == old(self).chunk_map.chunk_at(e.0)
                    &&& e.1.wf()
                },
            forall|c: Vec3i| #![trigger c.spec_key()]
                old(self).chunk_map.contains_coord(c) && !in_render_box(c, player_pos)
                    ==> exists|i: int| 0 <= i < evicted@.len() && evicted@[i].0 == c,
    {
        let mut kept: Vec<Vec3i> = Vec::new();
        let mut evicted: Vec<(Vec3i, Box<Chunk>)> = Vec::new();
        let ghost res0 = self.resident@;
        let mut i: usize = 0;
        while i < self.resident.len()
            invariant
                old(self).wf(),
                chunk_coord_in_range(player_pos),
                self.resident@ == res0,
                res0 == old(self).resident@,
                self.chunk_updates@ == old(self).chunk_updates@,
                self.chunk_loader == old(self).chunk_loader,
                i <= res0.len(),
                forall|k: u128|
                    #[trigger] self.chunk_map.map_view().contains_key(k) ==> old(
                        self,
                    ).chunk_map.map_view().contains_key(k) && self.chunk_map.map_view()[k] == old(
                        self,
                    ).chunk_map.map_view()[k],
                forall|j: int|
                    i <= j < res0.len() ==> self.chunk_map.contains_coord(#[trigger] res0[j]),
                forall|j: int|
                    0 <= j < i ==> (in_render_box(#[trigger] res0[j], player_pos)
                        == self.chunk_map.contains_coord(res0[j])),
                forall|k: u128|
                    #[trigger] old(self).chunk_map.map_view().contains_key(k)
                        && !self.chunk_map.map_view().contains_key(k) ==> exists|j: int|
                        0 <= j < i && (#[trigger] res0[j]).spec_key() == k && !in_render_box(
                            res0[j],
                            player_pos,
                        ),
                kept@.no_duplicates(),
                forall|j: int|
                    0 <= j < kept@.len() ==> exists|jj: int|
                        0 <= jj < i && res0[jj] == #[trigger] kept@[j],
                forall|j: int|
                    0 <= j < kept@.len() ==> res0.contains(#[trigger] kept@[j]) && in_render_box(
                        kept@[j],
                        player_pos,
                    ) && self.chunk_map.contains_coord(kept@[j]) && chunk_coord_in_range(kept@[j]),
                forall|j: int|
                    0 <= j < i && in_render_box(#[trigger] res0[j], player_pos) ==> kept@.contains(
                        res0[j],
                    ),
                forall|j: int|
                    0 <= j < evicted@.len() ==> {
                        let e = #[trigger] evicted@[j];
                        &&& old(self).chunk_map.contains_coord(e.0)
                        &&& !in_render_box(e.0, player_pos)
                        &&& *e.1 == old(self).chunk_map.chunk_at(e.0)
                        &&& e.1.wf()
                    },
                forall|j: int|
                    0 <= j < i && !in_render_box(#[trigger] res0[j], player_pos) ==> exists|m: int|
                        0 <= m < evicted@.len() && (#[trigger] evicted@[m]).0 == res0[j],
            decreases res0.len() - i,
        {
            let c = self.resident[i];
            proof {
                assert(c == res0[i as int]);
                assert(old(self).chunk_map.contains_coord(c));
                assert(chunk_coord_in_range(c));
            }
            let inside = c.x >= player_pos.x - RENDER_DIST && c.x <= player_pos.x + RENDER_DIST
                && c.y >= player_pos.y - RENDER_DIST_HEIGHT && c.y <= player_pos.y
                + RENDER_DIST_HEIGHT && c.z >= player_pos.z - RENDER_DIST && c.z <= player_pos.z
                + RENDER_DIST;
            if inside {
                let ghost kept0 = kept@;
                proof {
                    assert forall|a: int, b: int|
                        0 <= a < b < kept0.len() + 1 implies kept0.push(c)[a] != kept0.push(c)[
                        b
                    ] by {
                        if b == kept0.len() && kept0[a] == c {
                            let jj = choose|jj: int| 0 <= jj < i && res0[jj] == kept0[a];
                            assert(res0[jj] == res0[i as int]);
                        }
                    }
                    assert(res0.contains(res0[i as int]));
                }
                kept.push(c);
                proof {
                    assert forall|j: int|
                        0 <= j < kept@.len() implies exists|jj: int|
                        0 <= jj < i + 1 && res0[jj] == #[trigger] kept@[j] by {
                        if j == kept@.len() - 1 {
                            assert(res0[i as int] == kept@[j]);
                        } else {
                            let jj = choose|jj: int| 0 <= jj < i && res0[jj] == kept0[j];
                            assert(res0[jj] == kept@[j]);
                        }
                    }
                    assert forall|j: int|
                        0 <= j < i + 1 && in_render_box(
                            #[trigger] res0[j],
                            player_pos,
                        ) implies kept@.contains(res0[j]) by {
                        if j == i {
                            assert(kept@[kept@.len() - 1] == res0[j]);
                        } else {
                            let m = choose|m: int| 0 <= m < kept0.len() && kept0[m] == res0[j];
                            assert(kept@[m] == res0[j]);
                        }
                    }
                }
            } else {
                let ghost ev0 = evicted@;
                let ghost m0 = self.chunk_map.map_view();
                let taken = self.chunk_map.remove(c);
                match taken {
                    Some(ch) => {
                        evicted.push((c, ch));
                    },
                    None => {
                        proof {
                            assert(false);
                        }
                    },
                }
                proof {
                    assert forall|k: u128|
                        #[trigger] self.chunk_map.map_view().contains_key(k) implies old(
                        self,
                    ).chunk_map.map_view().contains_key(k) && self.chunk_map.map_view()[k] == old(
                        self,
                    ).chunk_map.map_view()[k] by {
                        assert(self.chunk_map.map_view() == m0.remove(c.spec_key()));
                        assert(m0.contains_key(k));
                        assert(old(self).chunk_map.map_view().contains_key(k));
                    }
                    assert forall|j: int|
                        i + 1 <= j < res0.len() implies self.chunk_map.contains_coord(
                        #[trigger] res0[j],
                    ) by {
                        if res0[j].spec_key() == c.spec_key() {
                            lemma_key_injective(res0[j], c);
                        }
                    }
                    assert forall|j: int|
                        0 <= j < i + 1 implies (in_render_box(#[trigger] res0[j], player_pos)
                        == self.chunk_map.contains_coord(res0[j])) by {
                        if j < i {
                            if res0[j].spec_key() == c.spec_key() {
                                lemma_key_injective(res0[j], c);
                            }
                        }
                    }
                    assert forall|j: int|
                        0 <= j < kept@.len() implies res0.contains(#[trigger] kept@[j])
                        && in_render_box(kept@[j], player_pos) && self.chunk_map.contains_coord(
                        kept@[j],
                    ) && chunk_coord_in_range(kept@[j]) by {
                        if kept@[j].spec_key() == c.spec_key() {
                            lemma_key_injective(kept@[j], c);
                        }
                    }
                    assert forall|j: int|
                        0 <= j < i + 1 && !in_render_box(
                            #[trigger] res0[j],
                            player_pos,
                        ) implies exists|m: int|
                        0 <= m < evicted@.len() && (#[trigger] evicted@[m]).0 == res0[j] by {
                        if j == i {
                            assert(evicted@[evicted@.len() - 1].0 == res0[j]);
                        } else {
                            let m = choose|m: int|
                                0 <= m < ev0.len() && (#[trigger] ev0[m]).0 == res0[j];
                            assert(evicted@[m].0 == res0[j]);
                        }
                    }
                }
            }
            i += 1;
        }
        proof {
            assert forall|c: Vec3i| old(self).chunk_map.contains_coord(c) implies (
            self.chunk_map.contains_coord(c) <==> in_render_box(c, player_pos)) by {
                let j = choose|j: int|
                    0 <= j < old(self).resident@.len() && (#[trigger] old(
                        self,
                    ).resident@[j]).spec_key() == c.spec_key();
                lemma_key_injective(old(self).resident@[j], c);
                assert(in_render_box(res0[j], player_pos) == self.chunk_map.contains_coord(
                    res0[j],
                ));
            }
            assert forall|c: Vec3i| old(self).chunk_map.contains_coord(c) && !in_render_box(
                c,
                player_pos,
            ) implies exists|m: int|
                0 <= m < evicted@.len() && (#[trigger] evicted@[m]).0 == c by {
                let j = choose|j: int|
                    0 <= j < old(self).resident@.len() && (#[trigger] old(
                        self,
                    ).resident@[j]).spec_key() == c.spec_key();
                lemma_key_injective(old(self).resident@[j], c);
                assert(!in_render_box(res0[j], player_pos));
            }
            assert forall|k: u128|
                self.chunk_map.map_view().contains_key(k) implies exists|i2: int|
                0 <= i2 < kept@.len() && (#[trigger] kept@[i2]).spec_key() == k by {
                assert(old(self).chunk_map.map_view().contains_key(k));
                let j = choose|j: int|
                    0 <= j < old(self).resident@.len() && (#[trigger] old(
                        self,
                    ).resident@[j]).spec_key() == k;
                assert(self.chunk_map.contains_coord(res0[j]));
                assert(in_render_box(res0[j], player_pos));
                assert(kept@.contains(res0[j]));
                let i2 = choose|i2: int| 0 <= i2 < kept@.len() && kept@[i2] == res0[j];
                assert(kept@[i2].spec_key() == k);
            }
        }
        self.resident = kept;
        evicted
    }

    /// One streaming step: evict far chunks (returned for saving) and
    /// compute which near coordinates to request, in priority order.
    pub fn tick(&mut self, player_pos: Vec3i) -> (r: (Vec<(Vec3i, Box<Chunk>)>, Vec<Vec3i>))
        requires
            old(self).wf(),
            chunk_coord_in_range(player_pos),
        ensures
            final(self).wf(),
            final(self).dirty() == old(self).dirty(),
            forall|c: Vec3i| #![trigger c.spec_key()]
                final(self).chunk_map.contains_coord(c) <==> (old(self).chunk_map.contains_coord(c)
                    && in_render_box(c, player_pos)),
            forall|i: int|
                0 <= i < r.0@.len() ==> {
                    let e = #[trigger] r.0@[i];
                    &&& old(self).chunk_map.contains_coord(e.0)
                    &&& !in_render_box(e.0, player_pos)
                    &&& *e.1 == old(self).chunk_map.chunk_at(e.0)
                    &&& e.1.wf()
                },
            forall|c: Vec3i| #![trigger c.spec_key()]
                old(self).chunk_map.contains_coord(c) && !in_render_box(c, player_pos)
                    ==> exists|i: int| 0 <= i < r.0@.len() && r.0@[i].0 == c,
            forall|i: int|
                0 <= i < r.1@.len() ==> !final(self).chunk_map.contains_coord(#[trigger] r.1@[i])
                    && in_render_box(r.1@[i], player_pos)
                    && final(self).chunk_loader.in_flight().contains(r.1@[i].spec_key()),
            old(self).chunk_loader.in_flight().subset_of(final(self).chunk_loader.in_flight()),
            forall|k: u128|
                final(self).chunk_loader.in_flight().contains(k) && !old(
                    self,
                ).chunk_loader.in_flight().contains(k) ==> exists|i: int|
                    0 <= i < r.1@.len() && (#[trigger] r.1@[i].spec_key()) == k,
            forall|cp: Vec3i| #![trigger cp.spec_key()]
                in_render_box(cp, player_pos) ==> offset_done(
                    final(self).chunk_loader,
                    final(self).chunk_map,
                    cp,
                ),
    {
        let evicted = self.unload_chunks(player_pos);
        let ghost mid = *self;
        let requests = self.chunk_loader.tick(&self.chunk_map, player_pos);
        proof {
            assert forall|c: Vec3i| #![trigger c.spec_key()]
                self.chunk_map.contains_coord(c) <==> (old(self).chunk_map.contains_coord(c)
                    && in_render_box(c, player_pos)) by {
                assert(mid.chunk_map.contains_coord(c) <==> (old(self).chunk_map.contains_coord(c)
                    && in_render_box(c, player_pos)));
                assert(self.chunk_map == mid.chunk_map);
            }
            assert forall|cp: Vec3i| #![trigger cp.spec_key()]
                in_render_box(cp, player_pos) implies offset_done(
                self.chunk_loader,
                self.chunk_map,
                cp,
            ) by {}
        }
        let result = (evicted, requests);
        proof {
            assert forall|c: Vec3i| #![trigger c.spec_key()]
                old(self).chunk_map.contains_coord(c) && !in_render_box(
                    c,
                    player_pos,
                ) implies exists|i: int| 0 <= i < result.0@.len() && result.0@[i].0 == c by {
                let i = choose|i: int| 0 <= i < result.0@.len() && result.0@[i].0 == c;
            }
        }
        result
    }
}

/// A signed 48.16 fixed-point number: `raw` counts 1/65536-ths of a voxel.
/// The ray caster works on these instead of floating point.
#[derive(Clone, Copy, PartialEq, Eq, Structural, Debug)]
pub struct Fixed {
    pub raw: i64,
}

impl Fixed {
    /// The fixed-point number for a whole voxel count.
    pub fn from_int(v: i32) -> (r: Fixed)
        ensures
            r.raw == v * 65536,
    {
        Fixed { raw: (v as i64) * 65536 }
    }

    /// The fixed-point number `v + n / 65536`.
    pub fn from_parts(v: i32, n: u16) -> (r: Fixed)
        ensures
            r.raw == v * 65536 + n,
    {
        Fixed { raw: (v as i64) * 65536 + (n as i64) }
    }
}

/// A position or direction in fixed-point world coordinates.
#[derive(Clone, Copy, PartialEq, Eq, Structural, Debug)]
pub struct Vec3Fixed {
    pub x: Fixed,
    pub y: Fixed,
    pub z: Fixed,
}

/// The ray origin must leave head room for 200 unit steps in every
/// direction of the voxel grid.
pub open spec fn ray_origin_ok(p: Vec3Fixed) -> bool {
    &&& -0x7ffff000 <= (p.x.raw >> 16) <= 0x7ffff000
    &&& -0x7ffff000 <= (p.y.raw >> 16) <= 0x7ffff000
    &&& -0x7ffff000 <= (p.z.raw >> 16) <= 0x7ffff000
}

/// Direction components are capped at 65536 voxels per unit, which keeps
/// every cross-multiplied comparison inside 64 bits.
pub open spec fn ray_dir_ok(d: Vec3Fixed) -> bool {
    &&& -0x100000000 <= d.x.raw <= 0x100000000
    &&& -0x100000000 <= d.y.raw <= 0x100000000
    &&& -0x100000000 <= d.z.raw <= 0x100000000
}

/// Compares two side distances `n1/d1 < n2/d2`; a zero denominator means
/// the ray never crosses that axis, an infinite distance.
pub open spec fn ray_lt(n1: int, d1: int, n2: int, d2: int) -> bool {
    if d1 == 0 {
        false
    } else if d2 == 0 {
        true
    } else {
        n1 * d2 < n2 * d1
    }
}

/// One step of the digital differential analyzer: advance along the axis
/// with the smallest accumulated side distance until a full block or the
/// step budget stops the walk.  Yields the final voxel and which axis was
/// stepped last (0 when no step happened).
pub open spec fn spec_ray_walk(
    m: ChunkMap,
    bx: int,
    by: int,
    bz: int,
    nx: int,
    ny: int,
    nz: int,
    dx: int,
    dy: int,
    dz: int,
    sx: int,
    sy: int,
    sz: int,
    side: int,
    fuel: nat,
) -> (int, int, int, int)
    decreases fuel,
{
    if m.spec_block_at(Vec3i { x: bx as i32, y: by as i32, z: bz as i32 }) > 0 {
        (bx, by, bz, side)
    } else if fuel == 0 {
        (bx, by, bz, side)
    } else if ray_lt(nx, dx, ny, dy) && ray_lt(nx, dx, nz, dz) {
        spec_ray_walk(
            m,
            bx + sx,
            by,
            bz,
            nx + 65536,
            ny,
            nz,
            dx,
            dy,
            dz,
            sx,
            sy,
            sz,
            1,
            (fuel - 1) as nat,
        )
    } else if ray_lt(ny, dy, nz, dz) {
        spec_ray_walk(
            m,
            bx,
            by + sy,
            bz,
            nx,
            ny + 65536,
            nz,
            dx,
            dy,
            dz,
            sx,
            sy,
            sz,
            2,
            (fuel - 1) as nat,
        )
    } else {
        spec_ray_walk(
            m,
            bx,
            by,
            bz + sz,
            nx,
            ny,
            nz + 65536,
            dx,
            dy,
            dz,
            sx,
            sy,
            sz,
            3,
            (fuel - 1) as nat,
        )
    }
}

/// The initial per-axis state of the walk: step sign, distance to the
/// first grid line (in 1/65536 voxels) and |direction| as denominator.
pub open spec fn ray_axis_init(c: Fixed, d: Fixed) -> (int, int, int) {
    let frac = (c.raw & 65535) as int;
    if d.raw < 0 {
        (-1int, frac, -(d.raw as int))
    } else {
        (1int, 65536 - frac, d.raw as int)
    }
}

/// What `World::raycast` returns: the first full voxel the ray reaches
/// within 200 steps (best effort past that), or, when placing, the empty
/// voxel just before it on the arriving face's side.
pub open spec fn spec_raycast(m: ChunkMap, pos: Vec3Fixed, dir: Vec3Fixed, place: bool) -> Vec3i {
    let (sx, nx0, dx) = ray_axis_init(pos.x, dir.x);
    let (sy, ny0, dy) = ray_axis_init(pos.y, dir.y);
    let (sz, nz0, dz) = ray_axis_init(pos.z, dir.z);
    let (bx, by, bz, side) = spec_ray_walk(
        m,
        (pos.x.raw >> 16) as int,
        (pos.y.raw >> 16) as int,
        (pos.z.raw >> 16) as int,
        nx0,
        ny0,
        nz0,
        dx,
        dy,
        dz,
        sx,
        sy,
        sz,
        0,
        200,
    );
    let hit = Vec3i { x: bx as i32, y: by as i32, z: bz as i32 };
    if place {
        if side == 1 {
            Vec3i { x: (hit.x - sx) as i32, y: hit.y, z: hit.z }
        } else if side == 2 {
            Vec3i { x: hit.x, y: (hit.y - sy) as i32, z: hit.z }
        } else {
            Vec3i { x: hit.x, y: hit.y, z: (hit.z - sz) as i32 }
        }
    } else {
        hit
    }
}

proof fn lemma_fixed_parts(raw: i64)
    by (bit_vector)
    ensures
        0 <= (raw & 65535) < 65536,
        (raw >> 16) * 65536 + (raw & 65535) == raw,
{
}

/// Compares two side distances by cross multiplication; all values stay
/// well inside 64 bits.
fn ray_lt_exec(n1: u64, d1: u64, n2: u64, d2: u64) -> (r: bool)
    requires
        n1 <= 0x2000000,
        n2 <= 0x2000000,
        d1 <= 0x100000000,
        d2 <= 0x100000000,
    ensures
        r == ray_lt(n1 as int, d1 as int, n2 as int, d2 as int),
{
    if d1 == 0 {
        false
    } else if d2 == 0 {
        true
    } else {
        proof {
            vstd::arithmetic::mul::lemma_mul_upper_bound(n1 as int, 0x2000000, d2 as int, 0x100000000);
            vstd::arithmetic::mul::lemma_mul_upper_bound(n2 as int, 0x2000000, d1 as int, 0x100000000);
        }
        n1 * d2 < n2 * d1
    }
}

impl World {
    /// Casts a ray from `pos` along `dir` with a 3D digital differential
    /// analyzer, for at most 200 voxel steps.  With `place` the voxel in
    /// front of the hit face is returned instead of the hit voxel.
    pub fn raycast(&self, pos: Vec3Fixed, dir: Vec3Fixed, place: bool) -> (r: Vec3i)
        requires
            self.wf(),
            ray_origin_ok(pos),
            ray_dir_ok(dir),
        ensures
            r == spec_raycast(self.chunk_map, pos, dir, place),
    {
        proof {
            lemma_fixed_parts(pos.x.raw);
            lemma_fixed_parts(pos.y.raw);
            lemma_fixed_parts(pos.z.raw);
        }
        let mut bx: i32 = (pos.x.raw >> 16) as i32;
        let mut by: i32 = (pos.y.raw >> 16) as i32;
        let mut bz: i32 = (pos.z.raw >> 16) as i32;
        let fx: u64 = (pos.x.raw & 65535) as u64;
        let fy: u64 = (pos.y.raw & 65535) as u64;
        let fz: u64 = (pos.z.raw & 65535) as u64;
        let step_x: i32 = if dir.x.raw < 0 { -1 } else { 1 };
        let step_y: i32 = if dir.y.raw < 0 { -1 } else { 1 };
        let step_z: i32 = if dir.z.raw < 0 { -1 } else { 1 };
        let dx: u64 = if dir.x.raw < 0 { (-dir.x.raw) as u64 } else { dir.x.raw as u64 };
        let dy: u64 = if dir.y.raw < 0 { (-dir.y.raw) as u64 } else { dir.y.raw as u64 };
        let dz: u64 = if dir.z.raw < 0 { (-dir.z.raw) as u64 } else { dir.z.raw as u64 };
        let mut nx: u64 = if dir.x.raw < 0 { fx } else { 65536 - fx };
        let mut ny: u64 = if dir.y.raw < 0 { fy } else { 65536 - fy };
        let mut nz: u64 = if dir.z.raw < 0 { fz } else { 65536 - fz };
        let mut side: u8 = 0;
        let ghost m = self.chunk_map;
        let ghost bx0: int = (pos.x.raw >> 16) as int;
        let ghost by0: int = (pos.y.raw >> 16) as int;
        let ghost bz0: int = (pos.z.raw >> 16) as int;
        let ghost target = spec_ray_walk(
            m,
            bx0,
            by0,
            bz0,
            nx as int,
            ny as int,
            nz as int,
            dx as int,
            dy as int,
            dz as int,
            step_x as int,
            step_y as int,
            step_z as int,
            0,
            200,
        );
        let mut i: u32 = 0;
        while i < 200
            invariant
                self.wf(),
                m == self.chunk_map,
                i <= 200,
                bx0 - i <= bx <= bx0 + i,
                by0 - i <= by <= by0 + i,
                bz0 - i <= bz <= bz0 + i,
                -0x7ffff000 <= bx0 <= 0x7ffff000,
                -0x7ffff000 <= by0 <= 0x7ffff000,
                -0x7ffff000 <= bz0 <= 0x7ffff000,
                nx <= 65536 + 65536 * i,
                ny <= 65536 + 65536 * i,
                nz <= 65536 + 65536 * i,
                dx <= 0x100000000,
                dy <= 0x100000000,
                dz <= 0x100000000,
                step_x == 1 || step_x == -1,
                step_y == 1 || step_y == -1,
                step_z == 1 || step_z == -1,
                target == spec_ray_walk(
                    m,
                    bx as int,
                    by as int,
                    bz as int,
                    nx as int,
                    ny as int,
                    nz as int,
                    dx as int,
                    dy as int,
                    dz as int,
                    step_x as int,
                    step_y as int,
                    step_z as int,
                    side as int,
                    (200 - i) as nat,
                ),
            ensures
                target == (bx as int, by as int, bz as int, side as int),
            decreases 200 - i,
        {
            let here = Vec3i { x: bx, y: by, z: bz };
            let b = self.chunk_map.get_block(here);
            if b.is_full_block() {
                break ;
            }
            if ray_lt_exec(nx, dx, ny, dy) && ray_lt_exec(nx, dx, nz, dz) {
                nx = nx + 65536;
                bx = bx + step_x;
                side = 1;
            } else if ray_lt_exec(ny, dy, nz, dz) {
                ny = ny + 65536;
                by = by + step_y;
                side = 2;
            } else {
                nz = nz + 65536;
                bz = bz + step_z;
                side = 3;
            }
            i += 1;
        }
        proof {
            assert(target == (bx as int, by as int, bz as int, side as int));
        }
        if place {
            if side == 1 {
                Vec3i { x: bx - step_x, y: by, z: bz }
            } else if side == 2 {
                Vec3i { x: bx, y: by - step_y, z: bz }
            } else {
                Vec3i { x: bx, y: by, z: bz - step_z }
            }
        } else {
            Vec3i { x: bx, y: by, z: bz }
        }
    }
}



impl World {
    /// Rebuilds the mesh of every stale coordinate whose chunk is still
    /// resident, handing the face lists back for display, and drains the
    /// dirty set: afterwards no coordinate in it lacks a resident chunk,
    /// because none is left in it.
    pub fn update_display(&mut self) -> (out: Vec<(Vec3i, Vec<Vec<Face>>)>)
        requires
            old(self).wf(),
        ensures
            final(self).wf(),
            final(self).chunk_map == old(self).chunk_map,
            final(self).chunk_loader == old(self).chunk_loader,
            final(self).dirty().len() == 0,
            forall|c: Vec3i|
                final(self).dirty().contains(c) ==> final(self).chunk_map.contains_coord(c),
            forall|i: int|
                0 <= i < out@.len() ==> {
                    let e = #[trigger] out@[i];
                    &&& old(self).dirty().contains(e.0)
                    &&& old(self).chunk_map.contains_coord(e.0)
                    &&& meshable(e.0)
                    &&& mesh_lists_ok(old(self).chunk_map, e.0, e.1@)
                },
            forall|c: Vec3i|
                old(self).dirty().contains(c) && old(self).chunk_map.contains_coord(c)
                    && meshable(c) ==> exists|i: int|
                    0 <= i < out@.len() && (#[trigger] out@[i]).0 == c,
    {
        let mut out: Vec<(Vec3i, Vec<Vec<Face>>)> = Vec::new();
        let mut i: usize = 0;
        while i < self.chunk_updates.len()
            invariant
                old(self).wf(),
                self.chunk_map == old(self).chunk_map,
                self.chunk_loader == old(self).chunk_loader,
                self.chunk_updates@ == old(self).chunk_updates@,
                self.resident@ == old(self).resident@,
                i <= self.chunk_updates@.len(),
                forall|k: int|
                    0 <= k < out@.len() ==> {
                        let e = #[trigger] out@[k];
                        &&& old(self).dirty().contains(e.0)
                        &&& old(self).chunk_map.contains_coord(e.0)
                        &&& meshable(e.0)
                        &&& mesh_lists_ok(old(self).chunk_map, e.0, e.1@)
                    },
                forall|j: int|
                    0 <= j < i && old(self).chunk_map.contains_coord(
                        #[trigger] old(self).dirty()[j],
                    ) && meshable(old(self).dirty()[j]) ==> exists|k: int|
                        0 <= k < out@.len() && (#[trigger] out@[k]).0 == old(self).dirty()[j],
            decreases self.chunk_updates@.len() - i,
        {
            let c = self.chunk_updates[i];
            proof {
                assert(c == old(self).dirty()[i as int]);
                assert(old(self).dirty().contains(c));
            }
            let resident = match self.chunk_map.get_chunk(c) {
                Some(_) => true,
                None => false,
            };
            let mesh_ok = c.x >= -0x3ffffff && c.x <= 0x3fffffe && c.y >= -0x3ffffff && c.y
                <= 0x3fffffe && c.z >= -0x3ffffff && c.z <= 0x3fffffe;
            let ghost out0 = out@;
            if resident && mesh_ok {
                let lists = create_mesh(&self.chunk_map, c);
                out.push((c, lists));
            }
            proof {
                assert forall|j: int|
                    0 <= j < i + 1 && old(self).chunk_map.contains_coord(
                        #[trigger] old(self).dirty()[j],
                    ) && meshable(old(self).dirty()[j]) implies exists|k: int|
                    0 <= k < out@.len() && (#[trigger] out@[k]).0 == old(self).dirty()[j] by {
                    if j == i {
                        assert(out@[out@.len() - 1].0 == old(self).dirty()[j]);
                    } else {
                        let k = choose|k: int|
                            0 <= k < out0.len() && (#[trigger] out0[k]).0 == old(self).dirty()[j];
                        assert(out@[k].0 == old(self).dirty()[j]);
                    }
                }
            }
            i += 1;
        }
        self.chunk_updates = Vec::new();
        out
    }
}


} // verus!
