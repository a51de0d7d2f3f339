//! A region: the on-disk container for a 16 x 4 x 16 grid of chunks.
//!
//! The whole file image lives in memory here: a 8192-byte header of 1024
//! little-endian `[offset, length]` slot pairs, followed by a data area of
//! serialized chunk blobs.  Opening validates the header, saving manages
//! free space, and closing compacts the data area and rewrites the header;
//! reading and writing the actual file is the caller's concern.

use vstd::prelude::*;

use crate::chunk::{lemma_serialize_round_trip, spec_parse, spec_serialize, ser_len, Chunk};
use crate::pos::Vec3i;

verus! {

/// Little-endian bytes of a 32-bit header word.
pub open spec fn u32_byte(v: u32, j: int) -> u8 {
    if j == 0 {
        (v & 0xff) as u8
    } else if j == 1 {
        ((v >> 8) & 0xff) as u8
    } else if j == 2 {
        ((v >> 16) & 0xff) as u8
    } else {
        ((v >> 24) & 0xff) as u8
    }
}

pub open spec fn le32_val(b0: u8, b1: u8, b2: u8, b3: u8) -> u32 {
    (b0 as u32) | ((b1 as u32) << 8) | ((b2 as u32) << 16) | ((b3 as u32) << 24)
}

proof fn lemma_le32_round_trip(v: u32)
    by (bit_vector)
    ensures
        le32_val(u32_byte(v, 0), u32_byte(v, 1), u32_byte(v, 2), u32_byte(v, 3)) == v,
{
}

/// The 2048 header words encoded in the first 8192 bytes of a file image.
pub open spec fn spec_header(bytes: Seq<u8>) -> Seq<u32> {
    Seq::new(
        2048,
        |i: int| le32_val(bytes[4 * i], bytes[4 * i + 1], bytes[4 * i + 2], bytes[4 * i + 3]),
    )
}

pub open spec fn hdr_off(h: Seq<u32>, s: int) -> int {
    h[2 * s] as int
}

pub open spec fn hdr_len(h: Seq<u32>, s: int) -> int {
    h[2 * s + 1] as int
}

pub open spec fn hdr_live(h: Seq<u32>, s: int) -> bool {
    0 <= s < 1024 && hdr_len(h, s) > 0
}

/// A header is consistent with a file of length `flen` when every live
/// blob lies after the header and inside the file, and live blob byte
/// ranges never overlap.
pub open spec fn header_fits(h: Seq<u32>, flen: int) -> bool {
    &&& forall|s: int| hdr_live(h, s) ==> 8192 <= #[trigger] hdr_off(h, s) && hdr_off(h, s)
        + hdr_len(h, s) <= flen
    &&& forall|s1: int, s2: int|
        hdr_live(h, s1) && hdr_live(h, s2) && s1 != s2 ==> #[trigger] hdr_off(h, s1) + hdr_len(
            h,
            s1,
        ) <= #[trigger] hdr_off(h, s2) || hdr_off(h, s2) + hdr_len(h, s2) <= hdr_off(h, s1)
}

/// A file image whose header is valid.
pub open spec fn image_ok(bytes: Seq<u8>) -> bool {
    &&& 8192 <= bytes.len() <= 0xffffffff
    &&& header_fits(spec_header(bytes), bytes.len() as int)
}

/// The blobs a file image stores, by slot.
pub open spec fn spec_blobs_of(bytes: Seq<u8>) -> Map<int, Seq<u8>> {
    Map::new(
        |s: int| hdr_live(spec_header(bytes), s),
        |s: int|
            bytes.subrange(
                hdr_off(spec_header(bytes), s),
                hdr_off(spec_header(bytes), s) + hdr_len(spec_header(bytes), s),
            ),
    )
}

/// The slot pair index of a chunk position within its region: the low
/// coordinate bits select one of the 16 x 4 x 16 = 1024 pairs.
pub open spec fn spec_pos_to_id(pos: Vec3i) -> int {
    (((pos.x & 15) + 16 * (pos.y & 3) + 64 * (pos.z & 15)) * 2) as int
}

proof fn lemma_slot_bits(x: i32, y: i32, z: i32)
    by (bit_vector)
    ensures
        0 <= (x & 15) < 16,
        0 <= (y & 3) < 4,
        0 <= (z & 15) < 16,
{
}

pub fn pos_to_id(pos: Vec3i) -> (id: usize)
    ensures
        id == spec_pos_to_id(pos),
        id < 2048,
        id % 2 == 0,
{
    proof {
        lemma_slot_bits(pos.x, pos.y, pos.z);
    }
    (((pos.x & 15) + 16 * (pos.y & 3) + 64 * (pos.z & 15)) * 2) as usize
}

/// The contiguous free space at slot `slot`'s current offset before any
/// other live blob, considering slots `0 .. n` only: the least distance up
/// to the start of a live blob that ends beyond the offset (zero when such
/// a blob covers the offset from below), `0xffffffff` when none does.
pub open spec fn spec_gap_upto(h: Seq<u32>, slot: int, n: int) -> int
    decreases n,
{
    if n <= 0 {
        0xffffffff
    } else {
        let rest = spec_gap_upto(h, slot, n - 1);
        let s2 = n - 1;
        if s2 != slot && hdr_live(h, s2) && hdr_off(h, s2) + hdr_len(h, s2) > hdr_off(h, slot) {
            let cand = if hdr_off(h, s2) >= hdr_off(h, slot) {
                hdr_off(h, s2) - hdr_off(h, slot)
            } else {
                0
            };
            if cand < rest {
                cand
            } else {
                rest
            }
        } else {
            rest
        }
    }
}

/// The free space after a slot's offset over the whole header: the
/// distance to the start of the next live blob at or above it, and zero
/// when a live blob covers the offset from below.
pub open spec fn spec_gap(h: Seq<u32>, slot: int) -> int {
    spec_gap_upto(h, slot, 1024)
}

pub struct Region {
    index: Vec<u32>,
    data: Vec<u8>,
    pub chunk_count: u32,
}

impl Region {
    pub closed spec fn spec_index(&self) -> Seq<u32> {
        self.index@
    }

    /// How many chunks are currently checked out of this region.
    pub closed spec fn spec_count(&self) -> u32 {
        self.chunk_count
    }

    pub closed spec fn spec_data(&self) -> Seq<u8> {
        self.data@
    }

    pub open spec fn off(&self, s: int) -> int {
        hdr_off(self.spec_index(), s)
    }

    pub open spec fn blen(&self, s: int) -> int {
        hdr_len(self.spec_index(), s)
    }

    pub open spec fn live(&self, s: int) -> bool {
        hdr_live(self.spec_index(), s)
    }

    /// The blob stored for slot `s`.
    pub open spec fn blob(&self, s: int) -> Seq<u8> {
        self.spec_data().subrange(self.off(s), self.off(s) + self.blen(s))
    }

    /// The region denotes a partial map from slots to stored blobs.
    pub open spec fn blobs(&self) -> Map<int, Seq<u8>> {
        Map::new(|s: int| self.live(s), |s: int| self.blob(s))
    }

    pub open spec fn wf(&self) -> bool {
        &&& self.spec_index().len() == 2048
        &&& 8192 <= self.spec_data().len() <= 0xffffffff
        &&& header_fits(self.spec_index(), self.spec_data().len() as int)
    }

    /// The current byte length of the file image.
    pub fn image_len(&self) -> (n: usize)
        ensures
            n == self.spec_data().len(),
    {
        self.data.len()
    }

    /// A fresh region: every slot `[8192, 0]`, a zeroed header area, no
    /// chunks checked out.
    pub fn create() -> (r: Region)
        ensures
            r.wf(),
            r.blobs() == Map::<int, Seq<u8>>::empty(),
            r.spec_count() == 0,
    {
        let mut index: Vec<u32> = Vec::new();
        let mut i: usize = 0;
        while i < 1024
            invariant
                i <= 1024,
                index@.len() == 2 * i,
                forall|j: int|
                    0 <= j < 2 * i ==> #[trigger] index@[j] == (if j % 2 == 0 {
                        8192u32
                    } else {
                        0u32
                    }),
            decreases 1024 - i,
        {
            index.push(8192);
            index.push(0);
            i += 1;
        }
        let data = zero_bytes(8192);
        let r = Region { index, data, chunk_count: 0 };
        proof {
            assert(r.blobs() =~= Map::<int, Seq<u8>>::empty());
        }
        r
    }

    /// Opens a file image, validating its header.  Yields nothing exactly
    /// when the image is malformed.
    #[verifier::spinoff_prover]
    pub fn open(bytes: Vec<u8>) -> (r: Option<Region>)
        ensures
            match r {
                Some(reg) => {
                    &&& image_ok(bytes@)
                    &&& reg.wf()
                    &&& reg.spec_count() == 0
                    &&& reg.spec_data() == bytes@
                    &&& reg.spec_index() == spec_header(bytes@)
                    &&& reg.blobs() == spec_blobs_of(bytes@)
                },
                None => !image_ok(bytes@),
            },
    {
        if bytes.len() < 8192 {
            return None;
        }
        if bytes.len() > 0xffffffff {
            return None;
        }
        let mut index: Vec<u32> = Vec::new();
        let mut i: usize = 0;
        while i < 2048
            invariant
                bytes@.len() >= 8192,
                i <= 2048,
                index@.len() == i,
                forall|k: int| 0 <= k < i ==> index@[k] == spec_header(bytes@)[k],
            decreases 2048 - i,
        {
            let b0 = bytes[4 * i];
            let b1 = bytes[4 * i + 1];
            let b2 = bytes[4 * i + 2];
            let b3 = bytes[4 * i + 3];
            index.push((b0 as u32) | ((b1 as u32) << 8) | ((b2 as u32) << 16) | ((b3 as u32) << 24));
            i += 1;
        }
        proof {
            assert(index@ =~= spec_header(bytes@));
        }
        let mut s: usize = 0;
        while s < 1024
            invariant
                8192 <= bytes@.len() <= 0xffffffff,
                index@ == spec_header(bytes@),
                index@.len() == 2048,
                s <= 1024,
                forall|k: int|
                    0 <= k < s && hdr_live(index@, k) ==> 8192 <= #[trigger] hdr_off(index@, k)
                        && hdr_off(index@, k) + hdr_len(index@, k) <= bytes@.len(),
            decreases 1024 - s,
        {
            let len = index[2 * s + 1];
            if len > 0 {
                let off = index[2 * s];
                if off < 8192 {
                    proof {
                        assert(hdr_live(index@, s as int));
                        assert(hdr_off(index@, s as int) < 8192);
                        assert(!header_fits(index@, bytes@.len() as int));
                    }
                    return None;
                }
                if (off as u64) + (len as u64) > bytes.len() as u64 {
                    proof {
                        assert(hdr_live(index@, s as int));
                        assert(hdr_off(index@, s as int) + hdr_len(index@, s as int)
                            > bytes@.len());
                        assert(!header_fits(index@, bytes@.len() as int));
                    }
                    return None;
                }
            }
            s += 1;
        }
        let mut s1: usize = 0;
        while s1 < 1024
            invariant
                8192 <= bytes@.len() <= 0xffffffff,
                index@ == spec_header(bytes@),
                index@.len() == 2048,
                s1 <= 1024,
                forall|k: int|
                    hdr_live(index@, k) ==> 8192 <= #[trigger] hdr_off(index@, k) && hdr_off(
                        index@,
                        k,
                    ) + hdr_len(index@, k) <= bytes@.len(),
                forall|a: int, b: int|
                    0 <= a < s1 && hdr_live(index@, a) && hdr_live(index@, b) && a != b
                        ==> #[trigger] hdr_off(index@, a) + hdr_len(index@, a) <= #[trigger] hdr_off(
                        index@,
                        b,
                    ) || hdr_off(index@, b) + hdr_len(index@, b) <= hdr_off(index@, a),
            decreases 1024 - s1,
        {
            if index[2 * s1 + 1] > 0 {
                let o1 = index[2 * s1];
                let l1 = index[2 * s1 + 1];
                let mut s2: usize = 0;
                while s2 < 1024
                    invariant
                        index@ == spec_header(bytes@),
                        index@.len() == 2048,
                        s1 < 1024,
                        s2 <= 1024,
                        hdr_live(index@, s1 as int),
                        o1 == hdr_off(index@, s1 as int),
                        l1 == hdr_len(index@, s1 as int),
                        forall|k: int|
                            hdr_live(index@, k) ==> 8192 <= #[trigger] hdr_off(index@, k)
                                && hdr_off(index@, k) + hdr_len(index@, k) <= bytes@.len(),
                        8192 <= bytes@.len() <= 0xffffffff,
                        forall|b: int|
                            0 <= b < s2 && hdr_live(index@, b) && b != s1 ==> hdr_off(index@, s1 as int)
                                + hdr_len(index@, s1 as int) <= #[trigger] hdr_off(index@, b)
                                || hdr_off(index@, b) + hdr_len(index@, b) <= hdr_off(
                                index@,
                                s1 as int,
                            ),
                    decreases 1024 - s2,
                {
                    if s2 != s1 && index[2 * s2 + 1] > 0 {
                        let o2 = index[2 * s2];
                        let l2 = index[2 * s2 + 1];
                        let end1 = (o1 as u64) + (l1 as u64);
                        let end2 = (o2 as u64) + (l2 as u64);
                        if !(end1 <= o2 as u64 || end2 <= o1 as u64) {
                            proof {
                                assert(hdr_live(index@, s1 as int));
                                assert(hdr_live(index@, s2 as int));
                                assert(!(hdr_off(index@, s1 as int) + hdr_len(index@, s1 as int)
                                    <= hdr_off(index@, s2 as int) || hdr_off(index@, s2 as int)
                                    + hdr_len(index@, s2 as int) <= hdr_off(index@, s1 as int)));
                                assert(!header_fits(index@, bytes@.len() as int));
                            }
                            return None;
                        }
                    }
                    s2 += 1;
                }
            }
            s1 += 1;
        }
        let reg = Region { index, data: bytes, chunk_count: 0 };
        proof {
            assert(reg.blobs() =~= spec_blobs_of(reg.data@));
        }
        Some(reg)
    }

    /// The contiguous space at a slot's current offset before the next
    /// live blob of another slot: writing that many bytes there touches no
    /// other stored blob.
    fn available_space(&self, location: usize) -> (space: u32)
        requires
            self.wf(),
            location < 2048,
            location % 2 == 0,
        ensures
            space as int == spec_gap(self.spec_index(), location as int / 2),
            space > 0 ==> forall|s2: int|
                self.live(s2) && s2 != location / 2 ==> #[trigger] self.off(s2) + self.blen(s2)
                    <= self.off(location as int / 2) || self.off(location as int / 2)
                    + space <= self.off(s2),
    {
        let my_off = self.index[location];
        let mut space: u32 = u32::MAX;
        let mut s: usize = 0;
        while s < 1024
            invariant
                self.wf(),
                location < 2048,
                location % 2 == 0,
                my_off == self.spec_index()[location as int],
                s <= 1024,
                space as int == spec_gap_upto(self.spec_index(), location as int / 2, s as int),
                space > 0 ==> forall|s2: int|
                    0 <= s2 < s && self.live(s2) && s2 != location / 2 ==> #[trigger] self.off(s2)
                        + self.blen(s2) <= my_off || my_off + space <= self.off(s2),
            decreases 1024 - s,
        {
            if s != location / 2 {
                let l2 = self.index[2 * s + 1];
                if l2 > 0 {
                    let o2 = self.index[2 * s];
                    if (o2 as u64) + (l2 as u64) > my_off as u64 {
                        let cand: u32 = if o2 >= my_off {
                            o2 - my_off
                        } else {
                            0
                        };
                        if cand < space {
                            space = cand;
                        }
                    }
                }
            }
            s += 1;
        }
        space
    }

    /// Serializes a chunk into this slot: in place when the free space at
    /// the slot's offset (`spec_gap`) holds the payload and the offset is
    /// sane, else relocated to the end of the file.  One checked-out chunk
    /// returns to storage, so `chunk_count` drops.
    #[verifier::spinoff_prover]
    #[verifier::rlimit(100)]
    pub fn save_chunk(&mut self, chunk: Box<Chunk>, pos: Vec3i)
        requires
            old(self).wf(),
            chunk.wf(),
            chunk.spec_palette().len() <= 65535,
            old(self).spec_count() >= 1,
            old(self).spec_data().len() + ser_len(chunk.spec_palette(), chunk.spec_data())
                <= 0xffffffff,
        ensures
            final(self).wf(),
            final(self).blobs() == old(self).blobs().insert(
                spec_pos_to_id(pos) / 2,
                spec_serialize(chunk.spec_palette(), chunk.spec_data()),
            ),
            final(self).spec_count() == old(self).spec_count() - 1,
            final(self).off(spec_pos_to_id(pos) / 2) == ({
                let slot = spec_pos_to_id(pos) / 2;
                let off0 = hdr_off(old(self).spec_index(), slot);
                if spec_gap(old(self).spec_index(), slot) >= ser_len(
                    chunk.spec_palette(),
                    chunk.spec_data(),
                ) && 8192 <= off0 && off0 <= old(self).spec_data().len() {
                    off0
                } else {
                    old(self).spec_data().len() as int
                }
            }),
    {
        self.chunk_count = self.chunk_count - 1;
        let location = pos_to_id(pos);
        let bytes = chunk.serialize();
        let need = bytes.len();
        proof {
            assert(need > 0);
        }
        let ghost slot = location as int / 2;
        let space = self.available_space(location);
        let my_off = self.index[location];
        let dest: usize = if (space as usize) < need || my_off < 8192 || (my_off as usize)
            > self.data.len() {
            let d = self.data.len();
            self.index.set(location, d as u32);
            d
        } else {
            my_off as usize
        };
        let ghost h1 = self.index@;
        proof {
            assert forall|s2: int| hdr_live(h1, s2) && s2 != slot implies #[trigger] hdr_off(
                h1,
                s2,
            ) + hdr_len(h1, s2) <= dest || dest + need <= hdr_off(h1, s2) by {
                assert(self.off(s2) == old(self).off(s2));
                assert(self.blen(s2) == old(self).blen(s2));
            }
        }
        self.index.set(location + 1, need as u32);
        let ghost mid = *self;
        let mut k: usize = 0;
        while k < need
            invariant
                mid.index@.len() == 2048,
                self.index@ == mid.index@,
                self.chunk_count == mid.chunk_count,
                bytes@.len() == need,
                k <= need,
                dest + need <= 0xffffffff,
                dest <= mid.data@.len(),
                self.data@.len() as int == if dest + k <= mid.data@.len() {
                    mid.data@.len() as int
                } else {
                    dest + k
                },
                forall|m: int|
                    0 <= m < mid.data@.len() && !(dest <= m < dest + k) ==> self.data@[m]
                        == mid.data@[m],
                forall|m: int| 0 <= m < k ==> self.data@[dest + m] == bytes@[m],
            decreases need - k,
        {
            let b = bytes[k];
            if dest + k < self.data.len() {
                self.data.set(dest + k, b);
            } else {
                self.data.push(b);
            }
            k += 1;
        }
        proof {
            assert(self.off(slot) == dest);
            assert(self.blen(slot) == need);
            assert(dest + need <= self.spec_data().len());
            assert(self.spec_data().len() <= 0xffffffff);
            assert(self.spec_data().len() >= 8192);
            assert(8192 <= dest);
            let h = self.spec_index();
            let flen = self.spec_data().len() as int;
            assert forall|s2: int| hdr_live(h, s2) implies 8192 <= #[trigger] hdr_off(h, s2)
                && hdr_off(h, s2) + hdr_len(h, s2) <= flen by {
                if s2 != slot {
                    assert(hdr_off(h, s2) == old(self).off(s2));
                    assert(hdr_len(h, s2) == old(self).blen(s2));
                    assert(hdr_live(old(self).spec_index(), s2));
                }
            }
            assert forall|s1: int, s2: int|
                hdr_live(h, s1) && hdr_live(h, s2) && s1 != s2 implies #[trigger] hdr_off(h, s1)
                + hdr_len(h, s1) <= #[trigger] hdr_off(h, s2) || hdr_off(h, s2) + hdr_len(h, s2)
                <= hdr_off(h, s1) by {
                if s1 != slot && s2 != slot {
                    assert(hdr_live(old(self).spec_index(), s1));
                    assert(hdr_live(old(self).spec_index(), s2));
                    assert(hdr_off(h, s1) == old(self).off(s1));
                    assert(hdr_off(h, s2) == old(self).off(s2));
                    assert(hdr_len(h, s1) == old(self).blen(s1));
                    assert(hdr_len(h, s2) == old(self).blen(s2));
                } else {
                    let other = if s1 == slot {
                        s2
                    } else {
                        s1
                    };
                    assert(hdr_off(h, other) == hdr_off(h1, other));
                    assert(hdr_len(h, other) == hdr_len(h1, other));
                    assert(hdr_live(h1, other));
                    assert(hdr_off(h1, other) + hdr_len(h1, other) <= dest || dest + need
                        <= hdr_off(h1, other));
                    assert(hdr_off(h, slot as int) == dest);
                    assert(hdr_len(h, slot as int) == need);
                }
            }
            assert(header_fits(h, flen));
            assert(self.blob(slot) =~= bytes@);
            assert forall|s2: int| self.live(s2) && s2 != slot implies self.blob(s2) =~= old(
                self,
            ).blob(s2) by {
                assert(self.off(s2) == old(self).off(s2));
                assert(self.blen(s2) == old(self).blen(s2));
            }
            assert(self.blobs() =~= old(self).blobs().insert(
                slot,
                spec_serialize(chunk.spec_palette(), chunk.spec_data()),
            ));
        }
    }

    /// Reads and parses the blob at this chunk position.  A slot that was
    /// never saved, or a stored blob that does not parse, yields nothing;
    /// either way one more chunk is checked out.
    #[verifier::spinoff_prover]
    pub fn load_chunk(&mut self, pos: Vec3i) -> (r: Option<Box<Chunk>>)
        requires
            old(self).wf(),
            old(self).spec_count() < 0xffffffff,
        ensures
            final(self).wf(),
            final(self).spec_index() == old(self).spec_index(),
            final(self).spec_data() == old(self).spec_data(),
            final(self).spec_count() == old(self).spec_count() + 1,
            match r {
                Some(c) => {
                    &&& old(self).live(spec_pos_to_id(pos) / 2)
                    &&& c.wf()
                    &&& spec_parse(old(self).blob(spec_pos_to_id(pos) / 2)) == Some(
                        (c.spec_palette(), c.spec_data()),
                    )
                },
                None => !old(self).live(spec_pos_to_id(pos) / 2) || spec_parse(
                    old(self).blob(spec_pos_to_id(pos) / 2),
                ) is None,
            },
    {
        self.chunk_count = self.chunk_count + 1;
        let location = pos_to_id(pos);
        let data_size = self.index[location + 1] as usize;
        if data_size == 0 {
            return None;
        }
        let off = self.index[location] as usize;
        let mut buffer: Vec<u8> = Vec::new();
        let mut k: usize = 0;
        while k < data_size
            invariant
                self.wf(),
                location < 2047,
                off == self.off(location as int / 2),
                data_size == self.blen(location as int / 2),
                off + data_size <= self.spec_data().len(),
                k <= data_size,
                buffer@.len() == k,
                forall|m: int| 0 <= m < k ==> buffer@[m] == self.spec_data()[off + m],
            decreases data_size - k,
        {
            buffer.push(self.data[off + k]);
            k += 1;
        }
        proof {
            assert(buffer@ =~= self.blob(location as int / 2));
        }
        let mut chunk = Box::new(Chunk::new());
        if chunk.deserialize(buffer.as_slice()) {
            Some(chunk)
        } else {
            None
        }
    }
}


/// The total byte length of the blobs stored in slots `0 .. n`.
pub open spec fn sum_lens(h: Seq<u32>, n: int) -> int
    decreases n,
{
    if n <= 0 {
        0
    } else {
        sum_lens(h, n - 1) + hdr_len(h, n - 1)
    }
}

/// The total byte length of the blobs named by a list of slots.
spec fn order_sum(h: Seq<u32>, ord: Seq<usize>) -> int
    decreases ord.len(),
{
    if ord.len() == 0 {
        0
    } else {
        order_sum(h, ord.drop_last()) + hdr_len(h, ord.last() as int)
    }
}

proof fn lemma_order_sum_insert(h: Seq<u32>, ord: Seq<usize>, p: int, v: usize)
    requires
        0 <= p <= ord.len(),
    ensures
        order_sum(h, ord.insert(p, v)) == order_sum(h, ord) + hdr_len(h, v as int),
    decreases ord.len(),
{
    let ord2 = ord.insert(p, v);
    ord.insert_ensures(p, v);
    if p == ord.len() {
        assert(ord2.last() == v);
        assert(ord2.drop_last() =~= ord);
    } else {
        assert(ord2.last() == ord.last());
        ord.drop_last().insert_ensures(p, v);
        assert(ord2.drop_last() =~= ord.drop_last().insert(p, v));
        lemma_order_sum_insert(h, ord.drop_last(), p, v);
    }
}

proof fn lemma_hdr_byte_index(i: int, t: int)
    requires
        0 <= i,
        0 <= t < 4,
    ensures
        (4 * i + t) / 4 == i,
        (4 * i + t) % 4 == t,
{
    vstd::arithmetic::div_mod::lemma_fundamental_div_mod_converse_div(4 * i + t, 4, i, t);
    vstd::arithmetic::div_mod::lemma_fundamental_div_mod_converse_mod(4 * i + t, 4, i, t);
}

impl Region {
    /// Rewrites the 2048-word header into the first 8192 bytes of the file
    /// image; everything past the header is untouched.
    #[verifier::spinoff_prover]
    #[verifier::rlimit(100)]
    pub fn save_index(&mut self)
        requires
            old(self).wf(),
        ensures
            final(self).wf(),
            final(self).spec_index() == old(self).spec_index(),
            final(self).spec_count() == old(self).spec_count(),
            final(self).spec_data().len() == old(self).spec_data().len(),
            forall|m: int|
                8192 <= m < old(self).spec_data().len() ==> final(self).spec_data()[m] == old(
                    self,
                ).spec_data()[m],
            spec_header(final(self).spec_data()) == final(self).spec_index(),
            final(self).blobs() == old(self).blobs(),
    {
        let mut i: usize = 0;
        while i < 2048
            invariant
                self.index@ == old(self).index@,
                self.chunk_count == old(self).chunk_count,
                self.index@.len() == 2048,
                self.data@.len() == old(self).data@.len(),
                8192 <= self.data@.len() <= 0xffffffff,
                header_fits(self.index@, self.data@.len() as int),
                i <= 2048,
                forall|m: int| 4 * i <= m < self.data@.len() ==> self.data@[m] == old(self).data@[m],
                forall|m: int|
                    0 <= m < 4 * i ==> #[trigger] self.data@[m] == u32_byte(
                        self.index@[m / 4],
                        m % 4,
                    ),
            decreases 2048 - i,
        {
            let v = self.index[i];
            self.data.set(4 * i, (v & 0xff) as u8);
            self.data.set(4 * i + 1, ((v >> 8) & 0xff) as u8);
            self.data.set(4 * i + 2, ((v >> 16) & 0xff) as u8);
            self.data.set(4 * i + 3, ((v >> 24) & 0xff) as u8);
            proof {
                lemma_hdr_byte_index(i as int, 0);
                lemma_hdr_byte_index(i as int, 1);
                lemma_hdr_byte_index(i as int, 2);
                lemma_hdr_byte_index(i as int, 3);
            }
            i += 1;
        }
        proof {
            assert(spec_header(self.data@) =~= self.index@) by {
                assert forall|k: int| 0 <= k < 2048 implies spec_header(self.data@)[k]
                    == self.index@[k] by {
                    lemma_hdr_byte_index(k, 0);
                    lemma_hdr_byte_index(k, 1);
                    lemma_hdr_byte_index(k, 2);
                    lemma_hdr_byte_index(k, 3);
                    assert(self.data@[4 * k] == u32_byte(self.index@[k], 0));
                    assert(self.data@[4 * k + 1] == u32_byte(self.index@[k], 1));
                    assert(self.data@[4 * k + 2] == u32_byte(self.index@[k], 2));
                    assert(self.data@[4 * k + 3] == u32_byte(self.index@[k], 3));
                    lemma_le32_round_trip(self.index@[k]);
                }
            }
            assert forall|s2: int| self.live(s2) implies self.blob(s2) =~= old(self).blob(s2) by {
                assert(hdr_live(old(self).spec_index(), s2));
            }
            assert(self.blobs() =~= old(self).blobs());
        }
    }

    /// Compacts the data area — every live blob moved to the next free
    /// position after the header, in ascending offset order — rewrites the
    /// header, and hands back the finished file image.  The image is as
    /// small as the header plus the live payloads.
    #[verifier::spinoff_prover]
    #[verifier::rlimit(100)]
    pub fn close(self) -> (out: Vec<u8>)
        requires
            self.wf(),
        ensures
            image_ok(out@),
            spec_blobs_of(out@) == self.blobs(),
            out@.len() == 8192 + sum_lens(self.spec_index(), 1024),
    {
        let mut this = self;
        let ghost h0 = this.index@;
        let ghost d0 = this.data@;
        let mut order: Vec<usize> = Vec::new();
        let mut s: usize = 0;
        while s < 1024
            invariant
                this == self,
                self.wf(),
                h0 == self.spec_index(),
                d0 == self.spec_data(),
                s <= 1024,
                forall|k: int|
                    0 <= k < order@.len() ==> hdr_live(h0, #[trigger] order@[k] as int)
                        && order@[k] < s,
                forall|a: int, b: int|
                    0 <= a < b < order@.len() ==> hdr_off(h0, #[trigger] order@[a] as int)
                        < hdr_off(h0, #[trigger] order@[b] as int),
                forall|t: int|
                    0 <= t < s && hdr_live(h0, t) ==> exists|k: int|
                        0 <= k < order@.len() && #[trigger] order@[k] as int == t,
                order_sum(h0, order@) == sum_lens(h0, s as int),
            decreases 1024 - s,
        {
            let slen = this.index[2 * s + 1];
            if slen > 0 {
                let soff = this.index[2 * s];
                let mut p: usize = 0;
                while p < order.len() && this.index[2 * order[p]] < soff
                    invariant
                        this == self,
                        self.wf(),
                        h0 == self.spec_index(),
                        s < 1024,
                        soff == h0[2 * s],
                        forall|k: int|
                            0 <= k < order@.len() ==> hdr_live(h0, #[trigger] order@[k] as int)
                                && order@[k] < s,
                        p <= order@.len(),
                        forall|k: int|
                            0 <= k < p ==> hdr_off(h0, #[trigger] order@[k] as int) < soff,
                    decreases order@.len() - p,
                {
                    p += 1;
                }
                proof {
                    if p < order@.len() {
                        let other = order@[p as int] as int;
                        assert(hdr_live(h0, other));
                        assert(hdr_live(h0, s as int));
                        assert(other != s);
                        assert(hdr_off(h0, other) != hdr_off(h0, s as int));
                    }
                }
                let ghost order0 = order@;
                order.insert(p, s);
                proof {
                    order0.insert_ensures(p as int, s);
                    lemma_order_sum_insert(h0, order0, p as int, s);
                    assert forall|a: int, b: int|
                        0 <= a < b < order@.len() implies hdr_off(h0, #[trigger] order@[a] as int)
                        < hdr_off(h0, #[trigger] order@[b] as int) by {
                        if b < p {
                        } else if a == p && b > p {
                            assert(order@[b] == order0[b - 1]);
                            assert(hdr_off(h0, order0[b - 1] as int) >= soff);
                            assert(order0[b - 1] as int != s);
                            assert(hdr_off(h0, order0[b - 1] as int) != hdr_off(h0, s as int));
                        } else if a < p && b == p {
                        } else if a < p && b > p {
                            assert(order@[b] == order0[b - 1]);
                        } else if a > p {
                            assert(order@[a] == order0[a - 1]);
                            assert(order@[b] == order0[b - 1]);
                        }
                    }
                    assert forall|t: int| 0 <= t < s + 1 && hdr_live(h0, t) implies exists|k: int|
                        0 <= k < order@.len() && #[trigger] order@[k] as int == t by {
                        if t == s {
                            assert(order@[p as int] as int == t);
                        } else {
                            let k0 = choose|k0: int|
                                0 <= k0 < order0.len() && #[trigger] order0[k0] as int == t;
                            if k0 < p {
                                assert(order@[k0] as int == t);
                            } else {
                                assert(order@[k0 + 1] as int == t);
                            }
                        }
                    }
                }
            }
            s += 1;
        }
        proof {
            assert(order_sum(h0, order@) == sum_lens(h0, 1024));
        }
        let mut out = zero_bytes(8192);
        let mut idx: usize = 0;
        while idx < order.len()
            invariant
                this.index@.len() == 2048,
                this.data@ == d0,
                8192 <= d0.len() <= 0xffffffff,
                header_fits(h0, d0.len() as int),
                h0.len() == 2048,
                forall|k: int|
                    0 <= k < order@.len() ==> hdr_live(h0, #[trigger] order@[k] as int),
                forall|a: int, b: int|
                    0 <= a < b < order@.len() ==> hdr_off(h0, #[trigger] order@[a] as int)
                        < hdr_off(h0, #[trigger] order@[b] as int),
                forall|t: int|
                    0 <= t < 1024 && hdr_live(h0, t) ==> exists|k: int|
                        0 <= k < order@.len() && #[trigger] order@[k] as int == t,
                order_sum(h0, order@) == sum_lens(h0, 1024),
                idx <= order@.len(),
                forall|m: int|
                    0 <= m < 2048 && m % 2 == 1 ==> #[trigger] this.index@[m] == h0[m],
                forall|k: int|
                    idx <= k < order@.len() ==> this.index@[2 * (#[trigger] order@[k] as int)]
                        == h0[2 * (order@[k] as int)],
                forall|k: int|
                    0 <= k < idx ==> 8192 <= hdr_off(this.index@, #[trigger] order@[k] as int)
                        && hdr_off(this.index@, order@[k] as int) + hdr_len(h0, order@[k] as int)
                        <= out@.len(),
                forall|a: int, b: int|
                    0 <= a < b < idx ==> hdr_off(this.index@, #[trigger] order@[a] as int)
                        + hdr_len(h0, order@[a] as int) <= hdr_off(
                        this.index@,
                        #[trigger] order@[b] as int,
                    ),
                forall|k: int|
                    0 <= k < idx ==> out@.subrange(
                        hdr_off(this.index@, #[trigger] order@[k] as int),
                        hdr_off(this.index@, order@[k] as int) + hdr_len(h0, order@[k] as int),
                    ) == d0.subrange(
                        hdr_off(h0, order@[k] as int),
                        hdr_off(h0, order@[k] as int) + hdr_len(h0, order@[k] as int),
                    ),
                out@.len() == 8192 + order_sum(h0, order@.take(idx as int)),
                out@.len() <= (if idx < order@.len() {
                    hdr_off(h0, order@[idx as int] as int)
                } else {
                    d0.len() as int
                }),
            decreases order@.len() - idx,
        {
            let sl = order[idx];
            let slen = this.index[2 * sl + 1];
            let soff = this.index[2 * sl];
            let new_off = out.len();
            proof {
                assert(hdr_live(h0, sl as int));
                assert(this.index@[2 * (sl as int)] == h0[2 * (sl as int)]);
                assert(slen as int == hdr_len(h0, sl as int));
                assert(soff as int == hdr_off(h0, sl as int));
                assert(new_off <= hdr_off(h0, sl as int));
            }
            this.index.set(2 * sl, new_off as u32);
            let ghost out0 = out@;
            let mut k: usize = 0;
            while k < slen as usize
                invariant
                    this.data@ == d0,
                    d0.len() <= 0xffffffff,
                    soff as int == hdr_off(h0, sl as int),
                    slen as int == hdr_len(h0, sl as int),
                    soff + slen <= d0.len(),
                    k <= slen,
                    out@ == out0 + d0.subrange(soff as int, soff as int + k as int),
                decreases slen - k,
            {
                let b = this.data[soff as usize + k];
                out.push(b);
                proof {
                    assert(out@ =~= out0 + d0.subrange(soff as int, soff as int + k as int + 1));
                }
                k += 1;
            }
            idx += 1;
            proof {
                let sli = sl as int;
                assert(order@.take(idx as int).drop_last() =~= order@.take(idx as int - 1));
                assert(order@.take(idx as int).last() == sl);
                assert(out@.len() == 8192 + order_sum(h0, order@.take(idx as int)));
                assert(out@.subrange(new_off as int, new_off as int + slen as int) =~= d0.subrange(
                    hdr_off(h0, sli),
                    hdr_off(h0, sli) + hdr_len(h0, sli),
                ));
                assert forall|k2: int|
                    0 <= k2 < idx - 1 implies out@.subrange(
                    hdr_off(this.index@, #[trigger] order@[k2] as int),
                    hdr_off(this.index@, order@[k2] as int) + hdr_len(h0, order@[k2] as int),
                ) == d0.subrange(
                    hdr_off(h0, order@[k2] as int),
                    hdr_off(h0, order@[k2] as int) + hdr_len(h0, order@[k2] as int),
                ) by {
                    assert(order@[k2] as int != sli);
                    assert(hdr_off(this.index@, order@[k2] as int) + hdr_len(h0, order@[k2] as int)
                        <= new_off);
                    assert(out@.subrange(
                        hdr_off(this.index@, order@[k2] as int),
                        hdr_off(this.index@, order@[k2] as int) + hdr_len(h0, order@[k2] as int),
                    ) =~= out0.subrange(
                        hdr_off(this.index@, order@[k2] as int),
                        hdr_off(this.index@, order@[k2] as int) + hdr_len(h0, order@[k2] as int),
                    ));
                }
                if idx < order@.len() {
                    let nxt = order@[idx as int] as int;
                    assert(hdr_off(h0, sli) < hdr_off(h0, nxt));
                    assert(hdr_live(h0, nxt) && hdr_live(h0, sli) && nxt != sli);
                    assert(hdr_off(h0, sli) + hdr_len(h0, sli) <= hdr_off(h0, nxt));
                }
            }
        }
        proof {
            assert(order@.take(order@.len() as int) =~= order@);
            assert(out@.len() == 8192 + sum_lens(h0, 1024));
            assert forall|m: int|
                0 <= m < 2048 && m % 2 == 1 implies #[trigger] this.index@[m] == h0[m] by {}
            let hn = this.index@;
            assert forall|s2: int| hdr_live(hn, s2) implies 8192 <= #[trigger] hdr_off(hn, s2)
                && hdr_off(hn, s2) + hdr_len(hn, s2) <= out@.len() by {
                assert(hn[2 * s2 + 1] == h0[2 * s2 + 1]);
                assert(hdr_live(h0, s2));
                let k = choose|k: int| 0 <= k < order@.len() && #[trigger] order@[k] as int == s2;
                assert(hdr_len(hn, s2) == hdr_len(h0, s2));
            }
            assert forall|s1: int, s2: int|
                hdr_live(hn, s1) && hdr_live(hn, s2) && s1 != s2 implies #[trigger] hdr_off(hn, s1)
                + hdr_len(hn, s1) <= #[trigger] hdr_off(hn, s2) || hdr_off(hn, s2) + hdr_len(
                hn,
                s2,
            ) <= hdr_off(hn, s1) by {
                assert(hdr_live(h0, s1));
                assert(hdr_live(h0, s2));
                let k1 = choose|k: int| 0 <= k < order@.len() && #[trigger] order@[k] as int == s1;
                let k2 = choose|k: int| 0 <= k < order@.len() && #[trigger] order@[k] as int == s2;
                assert(k1 != k2);
                assert(hdr_len(hn, s1) == hdr_len(h0, s1));
                assert(hdr_len(hn, s2) == hdr_len(h0, s2));
                if k1 < k2 {
                } else {
                }
            }
            assert(header_fits(hn, out@.len() as int));
        }
        this.data = out;
        let ghost packed = this;
        this.save_index();
        proof {
            assert(image_ok(this.data@));
            assert(spec_blobs_of(this.data@) =~= self.blobs()) by {
                let hn = this.index@;
                assert(spec_header(this.data@) == hn);
                assert forall|s2: int| #![auto] hdr_live(hn, s2) == hdr_live(h0, s2) by {
                    if 0 <= s2 < 1024 {
                        assert(hn[2 * s2 + 1] == h0[2 * s2 + 1]);
                    }
                }
                assert forall|s2: int| hdr_live(hn, s2) implies this.data@.subrange(
                    hdr_off(hn, s2),
                    hdr_off(hn, s2) + hdr_len(hn, s2),
                ) == self.spec_data().subrange(
                    hdr_off(h0, s2),
                    hdr_off(h0, s2) + hdr_len(h0, s2),
                ) by {
                    let k = choose|k: int|
                        0 <= k < order@.len() && #[trigger] order@[k] as int == s2;
                    assert(hdr_len(hn, s2) == hdr_len(h0, s2));
                    assert(packed.data@.subrange(
                        hdr_off(hn, s2),
                        hdr_off(hn, s2) + hdr_len(hn, s2),
                    ) == d0.subrange(hdr_off(h0, s2), hdr_off(h0, s2) + hdr_len(h0, s2)));
                    assert(this.data@.subrange(
                        hdr_off(hn, s2),
                        hdr_off(hn, s2) + hdr_len(hn, s2),
                    ) =~= packed.data@.subrange(
                        hdr_off(hn, s2),
                        hdr_off(hn, s2) + hdr_len(hn, s2),
                    ));
                }
            }
        }
        this.data
    }
}

/// A fresh all-zero byte array.
fn zero_bytes(n: usize) -> (v: Vec<u8>)
    ensures
        v@.len() == n,
        forall|i: int| 0 <= i < n ==> v@[i] == 0,
{
    let mut v: Vec<u8> = Vec::new();
    let mut k: usize = 0;
    while k < n
        invariant
            k <= n,
            v@.len() == k,
            forall|i: int| 0 <= i < k ==> v@[i] == 0,
        decreases n - k,
    {
        v.push(0);
        k += 1;
    }
    v
}


/// Law: after a chunk is saved into a slot, the region's blob map holds
/// exactly its serialized image there, and parsing that blob — as a fresh
/// open and load of the same slot does — yields the chunk's palette and
/// word array back.
pub proof fn lemma_save_load_round_trip(blobs: Map<int, Seq<u8>>, c: Chunk, s: int)
    requires
        c.wf(),
        c.spec_palette().len() <= 65535,
    ensures
        ({
            let m2 = blobs.insert(s, spec_serialize(c.spec_palette(), c.spec_data()));
            &&& m2.contains_key(s)
            &&& spec_parse(m2[s]) == Some((c.spec_palette(), c.spec_data()))
        }),
{
    lemma_serialize_round_trip(c);
}


} // verus!
