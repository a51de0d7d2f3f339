use voxelworld::block::Block;
use voxelworld::chunk::Chunk;
use voxelworld::pos::Vec3i;
use voxelworld::region::{pos_to_id, Region};

fn p(x: i32, y: i32, z: i32) -> Vec3i {
    Vec3i { x, y, z }
}

fn sample_chunk(seed: u16) -> Chunk {
    let mut c = Chunk::new();
    for i in 0..32 {
        c.set_block(p(i, 0, 0), Block { block_type: (seed + (i as u16 % 3)) });
    }
    c
}

#[test]
fn pos_to_id_uses_low_coordinate_bits() {
    assert_eq!(pos_to_id(p(0, 0, 0)), 0);
    assert_eq!(pos_to_id(p(1, 0, 0)), 2);
    assert_eq!(pos_to_id(p(0, 1, 0)), 32);
    assert_eq!(pos_to_id(p(0, 0, 1)), 128);
    assert_eq!(pos_to_id(p(15, 3, 15)), 2046);
    // only the low bits matter: the same slot serves every region
    assert_eq!(pos_to_id(p(16, 4, 16)), 0);
    assert_eq!(pos_to_id(p(-16, -4, -16)), 0);
}

#[test]
fn save_then_load_in_the_same_region() {
    let mut r = Region::create();
    let c = sample_chunk(1);
    r.load_chunk(p(2, 1, 3));
    r.save_chunk(Box::new(c.clone()), p(2, 1, 3));
    let back = r.load_chunk(p(2, 1, 3)).expect("saved chunk loads");
    for x in 0..32 {
        assert_eq!(
            back.get_block(p(x, 0, 0)).block_type,
            c.get_block(p(x, 0, 0)).block_type
        );
    }
    // a slot never saved yields nothing
    assert!(r.load_chunk(p(5, 0, 0)).is_none());
}

#[test]
fn save_close_reopen_load_round_trip() {
    let mut r = Region::create();
    let c = sample_chunk(4);
    r.load_chunk(p(7, 2, 9));
    r.save_chunk(Box::new(c.clone()), p(7, 2, 9));
    let image = r.close();
    let mut reopened = Region::open(image).expect("written image reopens");
    let back = reopened.load_chunk(p(7, 2, 9)).expect("stored blob loads");
    for x in 0..32 {
        for y in 0..32 {
            for z in 0..32 {
                assert_eq!(
                    back.get_block(p(x, y, z)).block_type,
                    c.get_block(p(x, y, z)).block_type
                );
            }
        }
    }
}

#[test]
fn compaction_after_overwrite_cycles_keeps_chunks_and_shrinks_the_file() {
    let mut r = Region::create();
    let small = Chunk::new();
    let big_a = sample_chunk(1);
    let big_b = sample_chunk(7);
    // interleave growing saves so blobs relocate and leave garbage behind
    for _ in 0..6 {
        r.load_chunk(p(0, 0, 0));
        r.save_chunk(Box::new(small.clone()), p(0, 0, 0));
        r.load_chunk(p(1, 0, 0));
        r.save_chunk(Box::new(big_b.clone()), p(1, 0, 0));
        r.load_chunk(p(0, 0, 0));
        r.save_chunk(Box::new(big_a.clone()), p(0, 0, 0));
    }
    let len_a = big_a.serialize().len();
    let len_b = big_b.serialize().len();
    let image = r.close();
    // compacted: exactly the header plus the two live payloads
    assert_eq!(image.len(), 8192 + len_a + len_b);
    let mut reopened = Region::open(image).expect("compacted image reopens");
    let a = reopened.load_chunk(p(0, 0, 0)).expect("first chunk");
    let b = reopened.load_chunk(p(1, 0, 0)).expect("second chunk");
    for x in 0..32 {
        assert_eq!(
            a.get_block(p(x, 0, 0)).block_type,
            big_a.get_block(p(x, 0, 0)).block_type
        );
        assert_eq!(
            b.get_block(p(x, 0, 0)).block_type,
            big_b.get_block(p(x, 0, 0)).block_type
        );
    }
}

#[test]
fn saving_the_same_size_reuses_the_slot_in_place() {
    let mut r = Region::create();
    let c = sample_chunk(2);
    r.load_chunk(p(0, 0, 0));
    r.save_chunk(Box::new(c.clone()), p(0, 0, 0));
    let len1 = r.image_len();
    assert_eq!(len1, 8192 + c.serialize().len());
    // the slot's gap still fits the payload, so the file does not grow
    r.load_chunk(p(0, 0, 0));
    r.save_chunk(Box::new(c.clone()), p(0, 0, 0));
    assert_eq!(r.image_len(), len1);
}

#[test]
fn open_rejects_malformed_images() {
    // too short for a header
    assert!(Region::open(vec![0u8; 100]).is_none());
    // a live slot pointing into the header
    let mut image = vec![0u8; 8192];
    image[0..4].copy_from_slice(&100u32.to_le_bytes());
    image[4..8].copy_from_slice(&4u32.to_le_bytes());
    assert!(Region::open(image).is_none());
    // a live slot reaching past the end of the file
    let mut image2 = vec![0u8; 8192];
    image2[0..4].copy_from_slice(&8192u32.to_le_bytes());
    image2[4..8].copy_from_slice(&1u32.to_le_bytes());
    assert!(Region::open(image2).is_none());
    // two live blobs overlapping
    let mut image3 = vec![0u8; 8200];
    image3[0..4].copy_from_slice(&8192u32.to_le_bytes());
    image3[4..8].copy_from_slice(&8u32.to_le_bytes());
    image3[8..12].copy_from_slice(&8196u32.to_le_bytes());
    image3[12..16].copy_from_slice(&4u32.to_le_bytes());
    assert!(Region::open(image3).is_none());
    // the empty header (all slots dead) is fine
    assert!(Region::open(vec![0u8; 8192]).is_some());
}

#[test]
fn chunk_count_tracks_checked_out_chunks() {
    let mut r = Region::create();
    r.load_chunk(p(0, 0, 0));
    r.load_chunk(p(1, 0, 0));
    assert_eq!(r.chunk_count, 2);
    r.save_chunk(Box::new(Chunk::new()), p(0, 0, 0));
    assert_eq!(r.chunk_count, 1);
    r.save_chunk(Box::new(Chunk::new()), p(1, 0, 0));
    assert_eq!(r.chunk_count, 0);
}
