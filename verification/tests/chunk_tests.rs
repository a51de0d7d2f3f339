use voxelworld::block::Block;
use voxelworld::chunk::Chunk;
use voxelworld::pos::Vec3i;

fn p(x: i32, y: i32, z: i32) -> Vec3i {
    Vec3i { x, y, z }
}

#[test]
fn fresh_chunk_reads_air_everywhere() {
    let c = Chunk::new();
    assert_eq!(c.palette().len(), 1);
    assert_eq!(c.palette()[0], 0);
    assert_eq!(c.data().len(), 0);
    for &(x, y, z) in &[(0, 0, 0), (31, 31, 31), (1, 0, 0), (16, 7, 29)] {
        assert_eq!(c.get_block(p(x, y, z)).block_type, 0);
    }
}

#[test]
fn set_block_reads_back_most_recent_write() {
    let mut c = Chunk::new();
    c.set_block(p(0, 0, 0), Block { block_type: 5 });
    assert_eq!(c.get_block(p(0, 0, 0)).block_type, 5);
    assert_eq!(c.get_block(p(1, 0, 0)).block_type, 0);
    // overwrite the same voxel twice; the last write wins
    c.set_block(p(0, 0, 0), Block { block_type: 9 });
    c.set_block(p(0, 0, 0), Block { block_type: 7 });
    assert_eq!(c.get_block(p(0, 0, 0)).block_type, 7);
    // writes at other voxels do not disturb it
    c.set_block(p(31, 31, 31), Block { block_type: 7 });
    c.set_block(p(30, 31, 31), Block { block_type: 0 });
    assert_eq!(c.get_block(p(0, 0, 0)).block_type, 7);
    assert_eq!(c.get_block(p(31, 31, 31)).block_type, 7);
    assert_eq!(c.get_block(p(30, 31, 31)).block_type, 0);
}

#[test]
fn palette_and_width_grow_with_distinct_types() {
    let mut c = Chunk::new();
    assert_eq!(c.bitsize(), 0);
    c.set_block(p(0, 0, 0), Block { block_type: 5 });
    // two palette entries need one bit
    assert_eq!(c.palette().len(), 2);
    assert_eq!(c.bitsize(), 1);
    c.set_block(p(1, 0, 0), Block { block_type: 6 });
    c.set_block(p(2, 0, 0), Block { block_type: 7 });
    // four palette entries need two bits
    assert_eq!(c.palette().len(), 4);
    assert_eq!(c.bitsize(), 2);
    c.set_block(p(3, 0, 0), Block { block_type: 8 });
    assert_eq!(c.palette().len(), 5);
    assert_eq!(c.bitsize(), 3);
    // all earlier voxels survived every re-pack
    assert_eq!(c.get_block(p(0, 0, 0)).block_type, 5);
    assert_eq!(c.get_block(p(1, 0, 0)).block_type, 6);
    assert_eq!(c.get_block(p(2, 0, 0)).block_type, 7);
    assert_eq!(c.get_block(p(3, 0, 0)).block_type, 8);
    assert_eq!(c.get_block(p(4, 0, 0)).block_type, 0);
}

#[test]
fn word_array_length_follows_the_width_table() {
    let mut c = Chunk::new();
    for t in 1..=3u16 {
        c.set_block(p(t as i32, 0, 0), Block { block_type: t });
    }
    // width 2: 32 fields per word, ceil(32768 / 32) words
    assert_eq!(c.bitsize(), 2);
    assert_eq!(c.data().len(), 1024);
    for t in 4..=20u16 {
        c.set_block(p(t as i32, 1, 0), Block { block_type: t });
    }
    // 21 distinct types incl. air: width 5, 12 fields per word
    assert_eq!(c.bitsize(), 5);
    assert_eq!(c.data().len(), 2731);
}

#[test]
fn serialize_deserialize_reproduces_every_voxel() {
    let mut c = Chunk::new();
    for i in 0..32 {
        for j in 0..32 {
            let t = ((i * 7 + j * 13) % 5) as u16;
            c.set_block(p(i, j, (i + j) % 32), Block { block_type: t });
        }
    }
    let bytes = c.serialize();
    let mut d = Chunk::new();
    assert!(d.deserialize(&bytes));
    for x in 0..32 {
        for y in 0..32 {
            for z in 0..32 {
                assert_eq!(
                    d.get_block(p(x, y, z)).block_type,
                    c.get_block(p(x, y, z)).block_type
                );
            }
        }
    }
}

#[test]
fn serialized_form_is_palette_then_words_little_endian() {
    let mut c = Chunk::new();
    c.set_block(p(0, 0, 0), Block { block_type: 0x1234 });
    let bytes = c.serialize();
    // palette length 2, entries 0 and 0x1234, then 512 words of width 1
    assert_eq!(bytes.len(), 2 + 4 + 512 * 8);
    assert_eq!(bytes[0], 2);
    assert_eq!(bytes[1], 0);
    assert_eq!(bytes[2], 0);
    assert_eq!(bytes[3], 0);
    assert_eq!(bytes[4], 0x34);
    assert_eq!(bytes[5], 0x12);
    // voxel 0 has palette index 1: lowest bit of the first word
    assert_eq!(bytes[6], 1);
}

#[test]
fn deserialize_rejects_malformed_buffers() {
    let mut c = Chunk::new();
    c.set_block(p(2, 2, 2), Block { block_type: 3 });
    let keep = c.serialize();

    let mut d = Chunk::new();
    // too short to hold a palette length
    assert!(!d.deserialize(&[7u8]));
    // an empty palette is meaningless
    assert!(!d.deserialize(&[0u8, 0u8]));
    // truncated word array
    assert!(!d.deserialize(&keep[..keep.len() - 1]));
    // an index out of palette range: width-1 data with palette of 2 but
    // a word pointing at entry 1 is fine; force a bad index at width 2
    let mut bad = Vec::new();
    bad.extend_from_slice(&3u16.to_le_bytes());
    for e in [0u16, 1, 2] {
        bad.extend_from_slice(&e.to_le_bytes());
    }
    for _ in 0..1024 {
        bad.extend_from_slice(&u64::MAX.to_le_bytes());
    }
    assert!(!d.deserialize(&bad));
    // a duplicate palette entry is rejected
    let mut dup = Vec::new();
    dup.extend_from_slice(&2u16.to_le_bytes());
    dup.extend_from_slice(&4u16.to_le_bytes());
    dup.extend_from_slice(&4u16.to_le_bytes());
    for _ in 0..512 {
        dup.extend_from_slice(&0u64.to_le_bytes());
    }
    assert!(!d.deserialize(&dup));
    // the failed attempts left the chunk unchanged
    let mut ok = Chunk::new();
    assert!(ok.deserialize(&keep));
    assert_eq!(ok.get_block(p(2, 2, 2)).block_type, 3);
}
