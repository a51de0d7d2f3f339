use voxelworld::block::Block;
use voxelworld::chunk::Chunk;
use voxelworld::pos::Vec3i;
use voxelworld::world::{Fixed, Vec3Fixed, World};

fn p(x: i32, y: i32, z: i32) -> Vec3i {
    Vec3i { x, y, z }
}

fn fx(v: i32) -> Fixed {
    Fixed::from_int(v)
}

fn half(v: i32) -> Fixed {
    Fixed::from_parts(v, 32768)
}

#[test]
fn absent_chunks_read_as_air() {
    let w = World::new();
    assert_eq!(w.chunk_map.get_block(p(0, 0, 0)).block_type, 0);
    assert_eq!(w.chunk_map.get_block(p(-1000, 50, 7)).block_type, 0);
}

#[test]
fn add_chunk_installs_and_dirties_neighbors() {
    let mut w = World::new();
    let mut c = Chunk::new();
    c.set_block(p(3, 0, 0), Block { block_type: 1 });
    w.add_chunk(p(0, 0, 0), Box::new(c));
    assert_eq!(w.chunk_map.get_block(p(3, 0, 0)).block_type, 1);
    assert_eq!(w.chunk_map.get_block(p(4, 0, 0)).block_type, 0);
    // the chunk itself and its six face neighbors are stale
    assert!(w.chunk_updates.contains(&p(0, 0, 0)));
    assert!(w.chunk_updates.contains(&p(1, 0, 0)));
    assert!(w.chunk_updates.contains(&p(-1, 0, 0)));
    assert!(w.chunk_updates.contains(&p(0, 1, 0)));
    assert!(w.chunk_updates.contains(&p(0, -1, 0)));
    assert!(w.chunk_updates.contains(&p(0, 0, 1)));
    assert!(w.chunk_updates.contains(&p(0, 0, -1)));
    assert_eq!(w.chunk_updates.len(), 7);
}

#[test]
fn set_block_writes_and_marks_boundary_neighbors() {
    let mut w = World::new();
    w.add_chunk(p(0, 0, 0), Box::new(Chunk::new()));
    let _ = w.update_display();
    assert_eq!(w.chunk_updates.len(), 0);
    // an edit in the interior dirties only the owning chunk
    w.set_block(p(5, 5, 5), Block { block_type: 2 });
    assert_eq!(w.chunk_map.get_block(p(5, 5, 5)).block_type, 2);
    assert!(w.chunk_updates.contains(&p(0, 0, 0)));
    assert_eq!(w.chunk_updates.len(), 1);
    let _ = w.update_display();
    // an edit on the low x boundary also dirties the -x neighbor
    w.set_block(p(0, 5, 5), Block { block_type: 2 });
    assert!(w.chunk_updates.contains(&p(0, 0, 0)));
    assert!(w.chunk_updates.contains(&p(-1, 0, 0)));
    assert_eq!(w.chunk_updates.len(), 2);
    let _ = w.update_display();
    // an edit on the high z boundary dirties the +z neighbor
    w.set_block(p(5, 5, 31), Block { block_type: 2 });
    assert!(w.chunk_updates.contains(&p(0, 0, 0)));
    assert!(w.chunk_updates.contains(&p(0, 0, 1)));
    assert_eq!(w.chunk_updates.len(), 2);
    // an edit into an unloaded chunk does nothing
    let before = w.chunk_updates.len();
    w.set_block(p(100, 0, 0), Block { block_type: 2 });
    assert_eq!(w.chunk_map.get_block(p(100, 0, 0)).block_type, 0);
    assert_eq!(w.chunk_updates.len(), before);
}

#[test]
fn update_display_drains_the_dirty_set() {
    let mut w = World::new();
    w.add_chunk(p(0, 0, 0), Box::new(Chunk::new()));
    assert!(w.chunk_updates.len() > 0);
    let meshes = w.update_display();
    // afterwards no coordinate in the dirty set lacks a chunk: it is empty
    assert_eq!(w.chunk_updates.len(), 0);
    // only the resident coordinate was meshed; stale neighbors without a
    // chunk were skipped
    assert_eq!(meshes.len(), 1);
    assert_eq!(meshes[0].0, p(0, 0, 0));
    assert_eq!(meshes[0].1.len(), 6);
}

#[test]
fn single_block_produces_one_face_per_direction() {
    let mut w = World::new();
    let mut c = Chunk::new();
    c.set_block(p(5, 6, 7), Block { block_type: 1 });
    w.add_chunk(p(0, 0, 0), Box::new(c));
    let meshes = w.update_display();
    assert_eq!(meshes.len(), 1);
    let lists = &meshes[0].1;
    for d in 0..6 {
        assert_eq!(lists[d].len(), 1, "direction {}", d);
    }
    // the +y face of a grass-like block: position (5,6,7), direction 5,
    // texture 1, all four corners in the open at full brightness
    let top = lists[5][0];
    let code = 5 + 6 * 64 + 7 * 4096 + 5 * 262144 + 1 * 2097152;
    assert_eq!(top.pos_dir_tex, code);
    assert_eq!(top.light, 255 * 0x01010101);
    // the -y face: position under the block is the cell itself at (5,6,7),
    // direction 4, texture 2, brightness a tenth
    let bottom = lists[4][0];
    let bcode = 5 + 6 * 64 + 7 * 4096 + 4 * 262144 + 2 * 2097152;
    assert_eq!(bottom.pos_dir_tex, bcode);
    assert_eq!(bottom.light, 25 * 0x01010101);
    // a +x side face: direction 1, texture 0, brightness four tenths
    let side = lists[1][0];
    let scode = 5 + 6 * 64 + 7 * 4096 + 1 * 262144;
    assert_eq!(side.pos_dir_tex, scode);
    assert_eq!(side.light, 102 * 0x01010101);
}

#[test]
fn faces_appear_across_chunk_boundaries() {
    let mut w = World::new();
    let mut c = Chunk::new();
    // a full block at the high-x edge of chunk (0,0,0)
    c.set_block(p(31, 0, 0), Block { block_type: 2 });
    w.add_chunk(p(0, 0, 0), Box::new(c));
    let mut n = Chunk::new();
    // and its neighbor voxel across the boundary is also full
    n.set_block(p(0, 0, 0), Block { block_type: 2 });
    w.add_chunk(p(1, 0, 0), Box::new(n));
    let meshes = w.update_display();
    assert_eq!(meshes.len(), 2);
    for (pos, lists) in &meshes {
        if *pos == p(0, 0, 0) {
            // the +x side of the edge block is covered by the neighbor
            assert_eq!(lists[1].len(), 0);
            assert_eq!(lists[0].len(), 1);
        }
    }
}

#[test]
fn raycast_hits_the_block_and_places_in_front_of_it() {
    let mut w = World::new();
    let mut c = Chunk::new();
    c.set_block(p(3, 0, 0), Block { block_type: 1 });
    w.add_chunk(p(0, 0, 0), Box::new(c));
    let origin = Vec3Fixed { x: half(0), y: half(0), z: half(0) };
    let dir = Vec3Fixed { x: fx(1), y: fx(0), z: fx(0) };
    assert_eq!(w.raycast(origin, dir, false), p(3, 0, 0));
    assert_eq!(w.raycast(origin, dir, true), p(2, 0, 0));
}

#[test]
fn raycast_walks_past_empty_space_and_gives_up_after_the_cap() {
    let mut w = World::new();
    w.add_chunk(p(0, 0, 0), Box::new(Chunk::new()));
    let origin = Vec3Fixed { x: half(0), y: half(0), z: half(0) };
    let dir = Vec3Fixed { x: fx(1), y: fx(0), z: fx(0) };
    // nothing to hit: after 200 steps the walk stops where it is
    assert_eq!(w.raycast(origin, dir, false), p(200, 0, 0));
    // a diagonal ray through empty space also terminates
    let diag = Vec3Fixed { x: fx(1), y: fx(1), z: fx(1) };
    let r = w.raycast(origin, diag, false);
    assert!(r.x + r.y + r.z == 200);
}

#[test]
fn tick_requests_nearby_chunks_and_evicts_far_ones() {
    let mut w = World::new();
    // a resident chunk far outside the render box around the origin
    w.add_chunk(p(50, 0, 0), Box::new(Chunk::new()));
    let (to_save, requests) = w.tick(p(0, 0, 0));
    assert_eq!(to_save.len(), 1);
    assert_eq!(to_save[0].0, p(50, 0, 0));
    assert!(w.chunk_map.get_chunk(p(50, 0, 0)).is_none());
    // with nothing resident nearby, the batch fills the whole budget
    assert_eq!(requests.len(), 60);
    // the visiting order starts with the central vertical column
    assert_eq!(requests[0], p(0, -1, 0));
    // no coordinate is requested twice while it is still in flight
    for i in 0..requests.len() {
        for j in 0..i {
            assert_ne!(requests[i], requests[j]);
        }
    }
    let (_, again) = w.tick(p(0, 0, 0));
    assert_eq!(again.len(), 0);
    // a delivered chunk clears its marker and becomes resident
    let c0 = requests[0];
    w.add_chunk(c0, Box::new(Chunk::new()));
    assert!(w.chunk_map.get_chunk(c0).is_some());
}
