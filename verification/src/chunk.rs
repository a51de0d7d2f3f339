//! A 32 x 32 x 32 voxel cube stored as a palette of distinct block types
//! plus a flat array of 64-bit words holding fixed-width palette indices.
//!
//! The bit width is always the smallest table entry whose capacity holds the
//! palette; a palette of one entry stores no words at all and every voxel
//! implicitly reads as that entry.

use vstd::prelude::*;

use crate::bits::{
    bpe_of, bpe_val, capacity_of, lemma_packed_bounds, lemma_width_facts, mask_of, mask_val,
    packed_get, packed_read, packed_write, valid_width, width_for, words_for, words_val,
};
use crate::block::Block;
use crate::pos::{local_in_range, Vec3i};

verus! {

#[derive(Clone)]
pub struct Chunk {
    palette: Vec<u16>,
    blocks_per_element: u64,
    bitsize: u8,
    mask: u64,
    data: Vec<u64>,
}

impl View for Chunk {
    type V = Seq<u16>;

    /// A chunk denotes the 32768 block types of its voxels, indexed by
    /// `x + 32 * y + 1024 * z`.
    closed spec fn view(&self) -> Seq<u16> {
        Seq::new(32768, |i: int| self.palette@[self.id_at(i) as int])
    }
}

impl Chunk {
    pub closed spec fn spec_palette(&self) -> Seq<u16> {
        self.palette@
    }

    pub closed spec fn spec_data(&self) -> Seq<u64> {
        self.data@
    }

    /// The current storage width in bits per voxel.
    pub closed spec fn width(&self) -> u64 {
        self.bitsize as u64
    }

    /// The palette index stored for voxel `i`.
    pub closed spec fn id_at(&self, i: int) -> u64 {
        if self.width() == 0 {
            0
        } else {
            packed_get(self.data@, self.width(), i)
        }
    }

    /// The representation invariant: the width is the smallest table entry
    /// that fits the palette, the derived fields agree with it, the word
    /// array has exactly the size that width needs, every stored index is a
    /// valid palette position, and the palette holds no duplicates.
    pub closed spec fn wf(&self) -> bool {
        &&& 1 <= self.palette@.len() <= 65536
        &&& self.width() == width_for(self.palette@.len() as int)
        &&& self.mask == mask_of(self.width())
        &&& self.blocks_per_element == bpe_of(self.width())
        &&& self.data@.len() == words_for(self.width())
        &&& forall|i: int| 0 <= i < 32768 ==> (#[trigger] self.id_at(i)) < self.palette@.len()
        &&& self.palette@.no_duplicates()
    }

    /// Creates the empty chunk: palette `[0]`, no words, every voxel air.
    pub fn new() -> (c: Chunk)
        ensures
            c.wf(),
            c@.len() == 32768,
            forall|i: int| 0 <= i < 32768 ==> c@[i] == 0,
            c.spec_palette() =~= seq![0u16],
    {
        let c = Chunk {
            palette: vec![0u16],
            blocks_per_element: 64,
            bitsize: 0,
            mask: 0,
            data: Vec::new(),
        };
        proof {
            assert(c.palette@ =~= seq![0u16]);
        }
        c
    }

    /// Reads one voxel in constant time.
    pub fn get_block(&self, pos: Vec3i) -> (r: Block)
        requires
            self.wf(),
            local_in_range(pos),
        ensures
            r.block_type == self@[pos.spec_lin()],
    {
        if self.palette.len() == 1 {
            Block { block_type: self.palette[0] }
        } else {
            proof {
                lemma_width_for_basic(self.palette@.len() as int);
            }
            let p = pos.lin();
            let b = packed_read(&self.data, self.bitsize as u64, p);
            proof {
                assert(self.id_at(p as int) < self.palette@.len());
            }
            Block { block_type: self.palette[b as usize] }
        }
    }

    /// The position of a block type in the palette, if present.
    fn block_to_id(&self, block: Block) -> (r: Option<u16>)
        requires
            self.palette@.len() <= 65536,
        ensures
            match r {
                Some(id) => id < self.palette@.len() && self.palette@[id as int]
                    == block.block_type,
                None => forall|k: int|
                    0 <= k < self.palette@.len() ==> self.palette@[k] != block.block_type,
            },
    {
        let mut i: usize = 0;
        while i < self.palette.len()
            invariant
                self.palette@.len() <= 65536,
                i <= self.palette@.len(),
                forall|k: int| 0 <= k < i ==> self.palette@[k] != block.block_type,
            decreases self.palette@.len() - i,
        {
            if self.palette[i] == block.block_type {
                return Some(i as u16);
            }
            i += 1;
        }
        None
    }

    /// Re-packs every stored index at the width the enlarged palette needs.
    /// Called only when the palette has just grown past the old capacity.
    fn grow(&mut self)
        requires
            valid_width(old(self).width()),
            old(self).mask == mask_of(old(self).width()),
            old(self).blocks_per_element == bpe_of(old(self).width()),
            old(self).spec_data().len() == words_for(old(self).width()),
            2 <= old(self).spec_palette().len() <= 65536,
            old(self).width() == width_for(old(self).spec_palette().len() - 1),
        ensures
            final(self).spec_palette() == old(self).spec_palette(),
            final(self).width() == width_for(final(self).spec_palette().len() as int),
            final(self).mask == mask_of(final(self).width()),
            final(self).blocks_per_element == bpe_of(final(self).width()),
            final(self).spec_data().len() == words_for(final(self).width()),
            forall|i: int| 0 <= i < 32768 ==> final(self).id_at(i) == old(self).id_at(i),
    {
        let len = self.palette.len();
        let nw8 = width_for_len(len);
        let nw = nw8 as u64;
        proof {
            lemma_width_for_basic(len as int);
            lemma_width_for_monotonic((len - 1) as int, len as int);
            assert(nw >= 1);
        }
        let n = words_val(nw);
        let mut temp = zero_words(n);
        proof {
            assert forall|i: int| 0 <= i < 32768 implies packed_get(temp@, nw, i) == 0 by {
                lemma_packed_bounds(nw, i);
                lemma_zero_field(nw, ((i % (bpe_of(nw) as int)) * nw) as u64);
            }
        }
        if self.bitsize > 0 {
            let w = self.bitsize as u64;
            proof {
                lemma_mask_monotonic(w, nw);
            }
            let mut i: usize = 0;
            while i < 32768
                invariant
                    valid_width(w),
                    1 <= w <= nw,
                    valid_width(nw),
                    w == old(self).width(),
                    self == old(self),
                    self.data@.len() == words_for(w),
                    temp@.len() == words_for(nw),
                    i <= 32768,
                    forall|k: int| 0 <= k < i ==> packed_get(temp@, nw, k) == old(self).id_at(k),
                    forall|k: int| i <= k < 32768 ==> packed_get(temp@, nw, k) == 0,
                decreases 32768 - i,
            {
                let v = packed_read(&self.data, w, i);
                proof {
                    lemma_mask_monotonic(w, nw);
                }
                packed_write(&mut temp, nw, i, v);
                i += 1;
            }
        }
        self.bitsize = nw8;
        self.mask = mask_val(nw);
        self.blocks_per_element = bpe_val(nw);
        self.data = temp;
    }

    /// Writes one voxel.  If the block type is new it is appended to the
    /// palette, re-packing the whole array at the next width when the
    /// palette outgrows the current one.
    pub fn set_block(&mut self, pos: Vec3i, block: Block)
        requires
            old(self).wf(),
            local_in_range(pos),
        ensures
            final(self).wf(),
            final(self)@ == old(self)@.update(pos.spec_lin(), block.block_type),
            old(self).spec_palette().contains(block.block_type) ==> final(self).spec_palette()
                == old(self).spec_palette(),
            !old(self).spec_palette().contains(block.block_type) ==> final(self).spec_palette()
                == old(self).spec_palette().push(block.block_type),
    {
        proof {
            lemma_width_for_basic(old(self).spec_palette().len() as int);
        }
        let id_found = self.block_to_id(block);
        let value: u64;
        match id_found {
            Some(id) => {
                proof {
                    assert(old(self).spec_palette().contains(block.block_type));
                }
                value = id as u64;
            },
            None => {
                proof {
                    assert(!old(self).spec_palette().contains(block.block_type));
                    if self.palette@.len() == 65536 {
                        lemma_full_palette(self.palette@, block.block_type);
                    }
                }
                self.palette.push(block.block_type);
                let len = self.palette.len();
                if (len as u64) > self.mask + 1 {
                    proof {
                        lemma_mask_capacity(old(self).width());
                    }
                    self.grow();
                } else {
                    proof {
                        lemma_mask_capacity(old(self).width());
                        lemma_width_for_bound(len as int, old(self).width());
                        lemma_width_for_monotonic((len - 1) as int, len as int);
                    }
                }
                value = (len - 1) as u64;
            },
        }
        proof {
            lemma_width_for_basic(self.palette@.len() as int);
            lemma_mask_capacity(self.width());
        }
        if self.palette.len() == 1 {
            proof {
                let li = pos.spec_lin();
                assert(self.palette@ == old(self).palette@);
                assert(self@[li] == block.block_type);
                assert(self@ =~= old(self)@.update(li, block.block_type));
            }
            return ;
        }
        let p = pos.lin();
        let w = self.bitsize as u64;
        proof {
            assert(value <= mask_of(w));
        }
        let ghost pre = *self;
        packed_write(&mut self.data, w, p, value);
        proof {
            let li = pos.spec_lin();
            assert(self.id_at(li) == value);
            assert forall|i: int| 0 <= i < 32768 && i != li implies self.id_at(i)
                == old(self).id_at(i) by {
                assert(pre.id_at(i) == old(self).id_at(i));
                assert(packed_get(self.data@, w, i) == packed_get(pre.data@, w, i));
                assert(self.id_at(i) == pre.id_at(i));
            }
            assert forall|i: int| 0 <= i < 32768 implies (#[trigger] self.id_at(i))
                < self.palette@.len() by {
                if i != li {
                    assert(old(self).id_at(i) < old(self).palette@.len());
                }
            }
            assert(self@ =~= old(self)@.update(li, block.block_type)) by {
                assert forall|i: int| 0 <= i < 32768 implies self@[i] == old(self)@.update(
                    li,
                    block.block_type,
                )[i] by {
                    if i == li {
                        assert(self.palette@[value as int] == block.block_type);
                    } else {
                        assert(old(self).id_at(i) < old(self).palette@.len());
                        assert(self.palette@[self.id_at(i) as int] == old(self).palette@[old(
                            self,
                        ).id_at(i) as int]);
                    }
                }
            }
        }
    }

    pub fn data(&self) -> (r: &Vec<u64>)
        ensures
            r@ == self.spec_data(),
    {
        &self.data
    }

    pub fn palette(&self) -> (r: &Vec<u16>)
        ensures
            r@ == self.spec_palette(),
    {
        &self.palette
    }

    /// The current storage width in bits per voxel.
    pub fn bitsize(&self) -> (r: u8)
        ensures
            r as u64 == self.width(),
    {
        self.bitsize
    }
}

/// The smallest valid width whose capacity holds `len` values, computed.
fn width_for_len(len: usize) -> (w: u8)
    requires
        1 <= len,
    ensures
        w as u64 == width_for(len as int),
{
    if len <= 1 {
        0
    } else if len <= 2 {
        1
    } else if len <= 4 {
        2
    } else if len <= 8 {
        3
    } else if len <= 16 {
        4
    } else if len <= 32 {
        5
    } else if len <= 64 {
        6
    } else if len <= 128 {
        7
    } else if len <= 256 {
        8
    } else if len <= 512 {
        9
    } else if len <= 1024 {
        10
    } else if len <= 4096 {
        12
    } else {
        16
    }
}

/// A fresh all-zero word array.
fn zero_words(n: usize) -> (v: Vec<u64>)
    ensures
        v@.len() == n,
        forall|i: int| 0 <= i < n ==> v@[i] == 0,
{
    let mut v: Vec<u64> = Vec::new();
    let mut k: usize = 0;
    while k < n
        invariant
            k <= n,
            v@.len() == k,
            forall|i: int| 0 <= i < k ==> v@[i] == 0,
        decreases n - k,
    {
        v.push(0);
        k += 1;
    }
    v
}

/// The chosen width always fits the palette, and is zero exactly for a
/// palette of one entry.
pub proof fn lemma_width_for_basic(len: int)
    requires
        1 <= len <= 65536,
    ensures
        valid_width(width_for(len)),
        len <= capacity_of(width_for(len)),
        (width_for(len) == 0 <==> len <= 1),
        (width_for(len) >= 1 <==> len >= 2),
{
}

/// The chosen width never exceeds a valid width that already fits.
pub proof fn lemma_width_for_bound(len: int, w: u64)
    requires
        1 <= len,
        valid_width(w),
        len <= capacity_of(w),
    ensures
        width_for(len) <= w,
{
}

/// More values never need a smaller width.
pub proof fn lemma_width_for_monotonic(a: int, b: int)
    requires
        1 <= a <= b,
    ensures
        width_for(a) <= width_for(b),
{
}

/// Capacities grow with the width.
pub proof fn lemma_capacity_monotonic(w1: u64, w2: u64)
    requires
        valid_width(w1),
        valid_width(w2),
        w1 <= w2,
    ensures
        capacity_of(w1) <= capacity_of(w2),
{
}

/// A width's mask is one less than its capacity.
pub proof fn lemma_mask_capacity(w: u64)
    requires
        valid_width(w),
    ensures
        mask_of(w) as int + 1 == capacity_of(w),
{
}

/// Masks grow with the width.
proof fn lemma_mask_monotonic(w1: u64, w2: u64)
    requires
        valid_width(w1),
        valid_width(w2),
        w1 <= w2,
    ensures
        mask_of(w1) <= mask_of(w2),
{
}

/// A zero word reads as zero at every field.
proof fn lemma_zero_field(w: u64, o: u64)
    by (bit_vector)
    requires
        w <= 16,
    ensures
        (0u64 >> o) & mask_of(w) == 0,
{
}

/// A duplicate-free palette of 65536 entries contains every block type:
/// there are no more 16-bit values than that.
proof fn lemma_full_palette(p: Seq<u16>, t: u16)
    requires
        p.no_duplicates(),
        p.len() == 65536,
    ensures
        exists|k: int| 0 <= k < p.len() && p[k] == t,
{
    if exists|k: int| 0 <= k < p.len() && p[k] == t {
        return ;
    }
    assert(forall|k: int| 0 <= k < p.len() ==> p[k] != t);
    let q = p.push(t);
    assert(q.no_duplicates());
    let qi = q.map_values(|v: u16| v as int);
    assert(qi.no_duplicates()) by {
        assert forall|i: int, j: int| 0 <= i < qi.len() && 0 <= j < qi.len() && i != j implies qi[i]
            != qi[j] by {
            assert(q[i] != q[j]);
        }
    }
    qi.unique_seq_to_set();
    vstd::set_lib::lemma_int_range(0, 65536);
    assert(qi.to_set().subset_of(vstd::set_lib::set_int_range(0, 65536))) by {
        assert forall|x: int| qi.to_set().contains(x) implies vstd::set_lib::set_int_range(
            0,
            65536,
        ).contains(x) by {
            let k = choose|k: int| 0 <= k < qi.len() && qi[k] == x;
            assert(0 <= q[k] < 65536);
        }
    }
    vstd::set_lib::lemma_len_subset(qi.to_set(), vstd::set_lib::set_int_range(0, 65536));
    assert(qi.to_set().len() == 65537);
}

/// Little-endian bytes of a 16-bit value.
pub open spec fn u16_byte(v: u16, j: int) -> u8 {
    if j == 0 {
        (v & 0xff) as u8
    } else {
        ((v >> 8) & 0xff) as u8
    }
}

/// Little-endian bytes of a 64-bit word.
pub open spec fn u64_byte(v: u64, j: int) -> u8 {
    if j == 0 {
        (v & 0xff) as u8
    } else if j == 1 {
        ((v >> 8) & 0xff) as u8
    } else if j == 2 {
        ((v >> 16) & 0xff) as u8
    } else if j == 3 {
        ((v >> 24) & 0xff) as u8
    } else if j == 4 {
        ((v >> 32) & 0xff) as u8
    } else if j == 5 {
        ((v >> 40) & 0xff) as u8
    } else if j == 6 {
        ((v >> 48) & 0xff) as u8
    } else {
        ((v >> 56) & 0xff) as u8
    }
}

pub open spec fn le16_val(b0: u8, b1: u8) -> u16 {
    (b0 as u16) | ((b1 as u16) << 8)
}

pub open spec fn le64_val(
    b0: u8,
    b1: u8,
    b2: u8,
    b3: u8,
    b4: u8,
    b5: u8,
    b6: u8,
    b7: u8,
) -> u64 {
    (b0 as u64) | ((b1 as u64) << 8) | ((b2 as u64) << 16) | ((b3 as u64) << 24) | ((b4 as u64)
        << 32) | ((b5 as u64) << 40) | ((b6 as u64) << 48) | ((b7 as u64) << 56)
}

proof fn lemma_le16_round_trip(v: u16)
    by (bit_vector)
    ensures
        le16_val(u16_byte(v, 0), u16_byte(v, 1)) == v,
{
}

proof fn lemma_le64_round_trip(v: u64)
    by (bit_vector)
    ensures
        le64_val(
            u64_byte(v, 0),
            u64_byte(v, 1),
            u64_byte(v, 2),
            u64_byte(v, 3),
            u64_byte(v, 4),
            u64_byte(v, 5),
            u64_byte(v, 6),
            u64_byte(v, 7),
        ) == v,
{
}

/// The byte length of a serialized chunk.
pub open spec fn ser_len(p: Seq<u16>, d: Seq<u64>) -> int {
    2 + 2 * (p.len() as int) + 8 * (d.len() as int)
}

/// Byte `k` of the serialized form: the palette length, then the palette
/// entries, then the raw word array, all little-endian.
pub open spec fn ser_byte(p: Seq<u16>, d: Seq<u64>, k: int) -> u8 {
    if k < 2 {
        u16_byte(p.len() as u16, k)
    } else if k < 2 + 2 * p.len() {
        u16_byte(p[(k - 2) / 2], (k - 2) % 2)
    } else {
        u64_byte(d[(k - 2 - 2 * p.len()) / 8], (k - 2 - 2 * p.len()) % 8)
    }
}

pub open spec fn spec_serialize(p: Seq<u16>, d: Seq<u64>) -> Seq<u8> {
    Seq::new(ser_len(p, d) as nat, |k: int| ser_byte(p, d, k))
}

/// Parses a serialized chunk, recomputing the width from the palette length
/// alone; yields nothing if the buffer is not exactly a well-formed image.
pub open spec fn spec_parse(bytes: Seq<u8>) -> Option<(Seq<u16>, Seq<u64>)> {
    if bytes.len() < 2 {
        None
    } else {
        let plen = le16_val(bytes[0], bytes[1]) as int;
        let w = width_for(plen);
        let dlen = words_for(w);
        if plen < 1 {
            None
        } else if bytes.len() != 2 + 2 * plen + 8 * dlen {
            None
        } else {
            let p = Seq::new(
                plen as nat,
                |i: int| le16_val(bytes[2 + 2 * i], bytes[3 + 2 * i]),
            );
            let d = Seq::new(
                dlen as nat,
                |i: int|
                    le64_val(
                        bytes[2 + 2 * plen + 8 * i],
                        bytes[3 + 2 * plen + 8 * i],
                        bytes[4 + 2 * plen + 8 * i],
                        bytes[5 + 2 * plen + 8 * i],
                        bytes[6 + 2 * plen + 8 * i],
                        bytes[7 + 2 * plen + 8 * i],
                        bytes[8 + 2 * plen + 8 * i],
                        bytes[9 + 2 * plen + 8 * i],
                    ),
            );
            if p.no_duplicates() && (w == 0 || forall|i: int|
                0 <= i < 32768 ==> packed_get(d, w, i) < plen) {
                Some((p, d))
            } else {
                None
            }
        }
    }
}

proof fn lemma_palette_byte_index(i: int, t: int)
    requires
        0 <= i,
        0 <= t < 2,
    ensures
        (2 * i + t) / 2 == i,
        (2 * i + t) % 2 == t,
{
    vstd::arithmetic::div_mod::lemma_fundamental_div_mod_converse_div(2 * i + t, 2, i, t);
    vstd::arithmetic::div_mod::lemma_fundamental_div_mod_converse_mod(2 * i + t, 2, i, t);
}

proof fn lemma_word_byte_index(i: int, t: int)
    requires
        0 <= i,
        0 <= t < 8,
    ensures
        (8 * i + t) / 8 == i,
        (8 * i + t) % 8 == t,
{
    vstd::arithmetic::div_mod::lemma_fundamental_div_mod_converse_div(8 * i + t, 8, i, t);
    vstd::arithmetic::div_mod::lemma_fundamental_div_mod_converse_mod(8 * i + t, 8, i, t);
}


/// Relates `spec_parse` to a palette and word array read out of a buffer of
/// the right shape, so the parser's exec code can justify each of its exits.
proof fn lemma_parse_shape(bytes: Seq<u8>, plen: int, dlen: int, pp: Seq<u16>, dd: Seq<u64>)
    requires
        bytes.len() >= 2,
        plen == le16_val(bytes[0], bytes[1]) as int,
        1 <= plen,
        dlen == words_for(width_for(plen)),
        bytes.len() == 2 + 2 * plen + 8 * dlen,
        pp =~= Seq::new(plen as nat, |i: int| le16_val(bytes[2 + 2 * i], bytes[3 + 2 * i])),
        dd =~= Seq::new(
            dlen as nat,
            |i: int|
                le64_val(
                    bytes[2 + 2 * plen + 8 * i],
                    bytes[3 + 2 * plen + 8 * i],
                    bytes[4 + 2 * plen + 8 * i],
                    bytes[5 + 2 * plen + 8 * i],
                    bytes[6 + 2 * plen + 8 * i],
                    bytes[7 + 2 * plen + 8 * i],
                    bytes[8 + 2 * plen + 8 * i],
                    bytes[9 + 2 * plen + 8 * i],
                ),
        ),
    ensures
        pp.no_duplicates() && (width_for(plen) == 0 || forall|i: int|
            0 <= i < 32768 ==> packed_get(dd, width_for(plen), i) < plen) ==> spec_parse(bytes)
            == Some((pp, dd)),
        !(pp.no_duplicates() && (width_for(plen) == 0 || forall|i: int|
            0 <= i < 32768 ==> packed_get(dd, width_for(plen), i) < plen)) ==> spec_parse(bytes)
            is None,
{
    let p0 = Seq::new(plen as nat, |i: int| le16_val(bytes[2 + 2 * i], bytes[3 + 2 * i]));
    let d0 = Seq::new(
        dlen as nat,
        |i: int|
            le64_val(
                bytes[2 + 2 * plen + 8 * i],
                bytes[3 + 2 * plen + 8 * i],
                bytes[4 + 2 * plen + 8 * i],
                bytes[5 + 2 * plen + 8 * i],
                bytes[6 + 2 * plen + 8 * i],
                bytes[7 + 2 * plen + 8 * i],
                bytes[8 + 2 * plen + 8 * i],
                bytes[9 + 2 * plen + 8 * i],
            ),
    );
    assert(pp == p0);
    assert(dd == d0);
}

impl Chunk {
    /// Serializes this chunk: palette length, palette entries, word array.
    pub fn serialize(&self) -> (r: Vec<u8>)
        requires
            self.wf(),
            self.spec_palette().len() <= 65535,
        ensures
            r@ == spec_serialize(self.spec_palette(), self.spec_data()),
    {
        let ghost p = self.palette@;
        let ghost d = self.data@;
        proof {
            lemma_width_for_basic(p.len() as int);
            if self.width() >= 1 {
                lemma_width_facts(self.width());
            }
        }
        let mut out: Vec<u8> = Vec::new();
        let plen16 = self.palette.len() as u16;
        out.push((plen16 & 0xff) as u8);
        out.push(((plen16 >> 8) & 0xff) as u8);
        let mut i: usize = 0;
        while i < self.palette.len()
            invariant
                self.wf(),
                p == self.palette@,
                d == self.data@,
                p.len() <= 65535,
                plen16 == p.len() as u16,
                i <= p.len(),
                out@.len() == 2 + 2 * i,
                forall|k: int| 0 <= k < out@.len() ==> out@[k] == ser_byte(p, d, k),
            decreases p.len() - i,
        {
            let v = self.palette[i];
            out.push((v & 0xff) as u8);
            out.push(((v >> 8) & 0xff) as u8);
            proof {
                lemma_palette_byte_index(i as int, 0);
                lemma_palette_byte_index(i as int, 1);
            }
            i += 1;
        }
        let ghost base = 2 + 2 * p.len();
        let mut j: usize = 0;
        while j < self.data.len()
            invariant
                self.wf(),
                p == self.palette@,
                d == self.data@,
                p.len() <= 65535,
                base == 2 + 2 * p.len(),
                j <= d.len(),
                out@.len() == base + 8 * j,
                forall|k: int| 0 <= k < out@.len() ==> out@[k] == ser_byte(p, d, k),
            decreases d.len() - j,
        {
            let wv = self.data[j];
            out.push((wv & 0xff) as u8);
            out.push(((wv >> 8) & 0xff) as u8);
            out.push(((wv >> 16) & 0xff) as u8);
            out.push(((wv >> 24) & 0xff) as u8);
            out.push(((wv >> 32) & 0xff) as u8);
            out.push(((wv >> 40) & 0xff) as u8);
            out.push(((wv >> 48) & 0xff) as u8);
            out.push(((wv >> 56) & 0xff) as u8);
            proof {
                lemma_word_byte_index(j as int, 0);
                lemma_word_byte_index(j as int, 1);
                lemma_word_byte_index(j as int, 2);
                lemma_word_byte_index(j as int, 3);
                lemma_word_byte_index(j as int, 4);
                lemma_word_byte_index(j as int, 5);
                lemma_word_byte_index(j as int, 6);
                lemma_word_byte_index(j as int, 7);
            }
            j += 1;
        }
        proof {
            assert(out@ =~= spec_serialize(p, d));
        }
        out
    }

    /// Replaces this chunk with the one the buffer describes.  Returns
    /// whether the buffer was exactly a well-formed image; on failure the
    /// chunk is left unchanged.
    pub fn deserialize(&mut self, buffer: &[u8]) -> (ok: bool)
        ensures
            ok == (spec_parse(buffer@) is Some),
            ok ==> final(self).wf() && spec_parse(buffer@) == Some(
                (final(self).spec_palette(), final(self).spec_data()),
            ),
            !ok ==> *final(self) == *old(self),
    {
        if buffer.len() < 2 {
            return false;
        }
        let b0 = buffer[0];
        let b1 = buffer[1];
        let plen16: u16 = (b0 as u16) | ((b1 as u16) << 8);
        let plen = plen16 as usize;
        if plen == 0 {
            return false;
        }
        let w8 = width_for_len(plen);
        let w = w8 as u64;
        proof {
            lemma_width_for_basic(plen as int);
            if w >= 1 {
                lemma_width_facts(w);
            }
        }
        let dlen = words_val(w);
        if buffer.len() != 2 + 2 * plen + 8 * dlen {
            return false;
        }
        let ghost pp = Seq::new(
            plen as nat,
            |i: int| le16_val(buffer@[2 + 2 * i], buffer@[3 + 2 * i]),
        );
        let mut pvec: Vec<u16> = Vec::new();
        let mut i: usize = 0;
        while i < plen
            invariant
                plen16 as int == plen,
                1 <= plen <= 65535,
                buffer@.len() == 2 + 2 * plen + 8 * dlen,
                pp == Seq::new(
                    plen as nat,
                    |k: int| le16_val(buffer@[2 + 2 * k], buffer@[3 + 2 * k]),
                ),
                i <= plen,
                pvec@.len() == i,
                forall|k: int| 0 <= k < i ==> pvec@[k] == pp[k],
            decreases plen - i,
        {
            let c0 = buffer[2 + 2 * i];
            let c1 = buffer[3 + 2 * i];
            pvec.push((c0 as u16) | ((c1 as u16) << 8));
            i += 1;
        }
        let base = 2 + 2 * plen;
        let ghost dd = Seq::new(
            dlen as nat,
            |k: int|
                le64_val(
                    buffer@[base + 8 * k],
                    buffer@[base + 1 + 8 * k],
                    buffer@[base + 2 + 8 * k],
                    buffer@[base + 3 + 8 * k],
                    buffer@[base + 4 + 8 * k],
                    buffer@[base + 5 + 8 * k],
                    buffer@[base + 6 + 8 * k],
                    buffer@[base + 7 + 8 * k],
                ),
        );
        let mut dvec: Vec<u64> = Vec::new();
        let mut j: usize = 0;
        while j < dlen
            invariant
                1 <= plen <= 65535,
                dlen <= 8192,
                buffer@.len() == 2 + 2 * plen + 8 * dlen,
                base == 2 + 2 * plen,
                dd == Seq::new(
                    dlen as nat,
                    |k: int|
                        le64_val(
                            buffer@[base + 8 * k],
                            buffer@[base + 1 + 8 * k],
                            buffer@[base + 2 + 8 * k],
                            buffer@[base + 3 + 8 * k],
                            buffer@[base + 4 + 8 * k],
                            buffer@[base + 5 + 8 * k],
                            buffer@[base + 6 + 8 * k],
                            buffer@[base + 7 + 8 * k],
                        ),
                ),
                j <= dlen,
                dvec@.len() == j,
                forall|k: int| 0 <= k < j ==> dvec@[k] == dd[k],
            decreases dlen - j,
        {
            let e0 = buffer[base + 8 * j];
            let e1 = buffer[base + 1 + 8 * j];
            let e2 = buffer[base + 2 + 8 * j];
            let e3 = buffer[base + 3 + 8 * j];
            let e4 = buffer[base + 4 + 8 * j];
            let e5 = buffer[base + 5 + 8 * j];
            let e6 = buffer[base + 6 + 8 * j];
            let e7 = buffer[base + 7 + 8 * j];
            dvec.push(
                (e0 as u64) | ((e1 as u64) << 8) | ((e2 as u64) << 16) | ((e3 as u64) << 24) | ((
                e4 as u64) << 32) | ((e5 as u64) << 40) | ((e6 as u64) << 48) | ((e7 as u64)
                    << 56),
            );
            j += 1;
        }
        proof {
            assert(pvec@ =~= pp);
            assert(dvec@ =~= dd);
        }
        if w > 0 {
            let mut q: usize = 0;
            while q < 32768
                invariant
                    valid_width(w),
                    1 <= w,
                    1 <= plen <= 65535,
                    w == width_for(plen as int),
                    dlen as int == words_for(w),
                    buffer@.len() == 2 + 2 * plen + 8 * dlen,
                    plen as int == le16_val(buffer@[0], buffer@[1]) as int,
                    pp =~= Seq::new(
                        plen as nat,
                        |k: int| le16_val(buffer@[2 + 2 * k], buffer@[3 + 2 * k]),
                    ),
                    dd =~= Seq::new(
                        dlen as nat,
                        |k: int|
                            le64_val(
                                buffer@[2 + 2 * plen + 8 * k],
                                buffer@[3 + 2 * plen + 8 * k],
                                buffer@[4 + 2 * plen + 8 * k],
                                buffer@[5 + 2 * plen + 8 * k],
                                buffer@[6 + 2 * plen + 8 * k],
                                buffer@[7 + 2 * plen + 8 * k],
                                buffer@[8 + 2 * plen + 8 * k],
                                buffer@[9 + 2 * plen + 8 * k],
                            ),
                    ),
                    dvec@ == dd,
                    dvec@.len() == words_for(w),
                    q <= 32768,
                    forall|k: int| 0 <= k < q ==> packed_get(dd, w, k) < plen,
                decreases 32768 - q,
            {
                let id = packed_read(&dvec, w, q);
                if id >= plen as u64 {
                    proof {
                        lemma_parse_shape(buffer@, plen as int, dlen as int, pp, dd);
                    }
                    return false;
                }
                q += 1;
            }
        }
        let mut seen = false_flags(65536);
        let mut t: usize = 0;
        while t < plen
            invariant
                1 <= plen <= 65535,
                w == width_for(plen as int),
                dlen as int == words_for(w),
                buffer@.len() == 2 + 2 * plen + 8 * dlen,
                plen as int == le16_val(buffer@[0], buffer@[1]) as int,
                pp =~= Seq::new(
                    plen as nat,
                    |k: int| le16_val(buffer@[2 + 2 * k], buffer@[3 + 2 * k]),
                ),
                dd =~= Seq::new(
                    dlen as nat,
                    |k: int|
                        le64_val(
                            buffer@[2 + 2 * plen + 8 * k],
                            buffer@[3 + 2 * plen + 8 * k],
                            buffer@[4 + 2 * plen + 8 * k],
                            buffer@[5 + 2 * plen + 8 * k],
                            buffer@[6 + 2 * plen + 8 * k],
                            buffer@[7 + 2 * plen + 8 * k],
                            buffer@[8 + 2 * plen + 8 * k],
                            buffer@[9 + 2 * plen + 8 * k],
                        ),
                ),
                w == 0 || forall|k: int| 0 <= k < 32768 ==> packed_get(dd, w, k) < plen,
                pvec@ == pp,
                dvec@ == dd,
                pvec@.len() == plen,
                seen@.len() == 65536,
                t <= plen,
                forall|v: int|
                    0 <= v < 65536 ==> (seen@[v] <==> exists|k: int|
                        0 <= k < t && pp[k] as int == v),
                pp.take(t as int).no_duplicates(),
            decreases plen - t,
        {
            let v = pvec[t] as usize;
            if seen[v] {
                proof {
                    let k = choose|k: int| 0 <= k < t && pp[k] as int == v as int;
                    assert(pp[k] == pp[t as int]);
                    assert(!pp.no_duplicates());
                    lemma_parse_shape(buffer@, plen as int, dlen as int, pp, dd);
                }
                return false;
            }
            seen.set(v, true);
            proof {
                let ghost t1 = t as int + 1;
                assert forall|a: int, b: int|
                    0 <= a < b < t1 implies pp.take(t1)[a] != pp.take(t1)[b] by {
                    if b < t as int {
                        assert(pp.take(t as int)[a] != pp.take(t as int)[b]);
                    } else {
                        assert(!(exists|k: int| 0 <= k < t && pp[k] as int == v as int));
                    }
                }
            }
            t += 1;
        }
        proof {
            assert(pp.take(plen as int) =~= pp);
            assert(pp.no_duplicates());
        }
        self.palette = pvec;
        self.data = dvec;
        self.bitsize = w8;
        self.mask = mask_val(w);
        self.blocks_per_element = bpe_val(w);
        proof {
            lemma_parse_shape(buffer@, plen as int, dlen as int, pp, dd);
            assert(spec_parse(buffer@) == Some((pp, dd)));
            assert forall|i2: int| 0 <= i2 < 32768 implies (#[trigger] self.id_at(i2))
                < self.palette@.len() by {}
        }
        true
    }
}

/// A fresh all-false flag array.
fn false_flags(n: usize) -> (v: Vec<bool>)
    ensures
        v@.len() == n,
        forall|i: int| 0 <= i < n ==> !v@[i],
{
    let mut v: Vec<bool> = Vec::new();
    let mut k: usize = 0;
    while k < n
        invariant
            k <= n,
            v@.len() == k,
            forall|i: int| 0 <= i < k ==> !v@[i],
        decreases n - k,
    {
        v.push(false);
        k += 1;
    }
    v
}

/// Parsing the palette bytes of a serialized image recovers the palette.
proof fn lemma_round_trip_palette(p: Seq<u16>, d: Seq<u64>)
    requires
        1 <= p.len() <= 65535,
    ensures
        Seq::new(
            p.len(),
            |i: int|
                le16_val(spec_serialize(p, d)[2 + 2 * i], spec_serialize(p, d)[3 + 2 * i]),
        ) =~= p,
{
    let bytes = spec_serialize(p, d);
    assert forall|i: int| 0 <= i < p.len() implies le16_val(bytes[2 + 2 * i], bytes[3 + 2 * i])
        == p[i] by {
        lemma_palette_byte_index(i, 0);
        lemma_palette_byte_index(i, 1);
        assert(bytes[2 + 2 * i] == u16_byte(p[i], 0));
        assert(bytes[3 + 2 * i] == u16_byte(p[i], 1));
        lemma_le16_round_trip(p[i]);
    }
}

/// Parsing the word bytes of a serialized image recovers the word array.
#[verifier::spinoff_prover]
proof fn lemma_round_trip_data(p: Seq<u16>, d: Seq<u64>)
    requires
        1 <= p.len() <= 65535,
    ensures
        Seq::new(
            d.len(),
            |i: int|
                le64_val(
                    spec_serialize(p, d)[2 + 2 * (p.len() as int) + 8 * i],
                    spec_serialize(p, d)[3 + 2 * (p.len() as int) + 8 * i],
                    spec_serialize(p, d)[4 + 2 * (p.len() as int) + 8 * i],
                    spec_serialize(p, d)[5 + 2 * (p.len() as int) + 8 * i],
                    spec_serialize(p, d)[6 + 2 * (p.len() as int) + 8 * i],
                    spec_serialize(p, d)[7 + 2 * (p.len() as int) + 8 * i],
                    spec_serialize(p, d)[8 + 2 * (p.len() as int) + 8 * i],
                    spec_serialize(p, d)[9 + 2 * (p.len() as int) + 8 * i],
                ),
        ) =~= d,
{
    let bytes = spec_serialize(p, d);
    let base = 2 + 2 * (p.len() as int);
    assert forall|i: int| 0 <= i < d.len() implies le64_val(
        bytes[base + 8 * i],
        bytes[base + 1 + 8 * i],
        bytes[base + 2 + 8 * i],
        bytes[base + 3 + 8 * i],
        bytes[base + 4 + 8 * i],
        bytes[base + 5 + 8 * i],
        bytes[base + 6 + 8 * i],
        bytes[base + 7 + 8 * i],
    ) == d[i] by {
        lemma_word_byte_index(i, 0);
        lemma_word_byte_index(i, 1);
        lemma_word_byte_index(i, 2);
        lemma_word_byte_index(i, 3);
        lemma_word_byte_index(i, 4);
        lemma_word_byte_index(i, 5);
        lemma_word_byte_index(i, 6);
        lemma_word_byte_index(i, 7);
        assert(bytes[base + 8 * i] == u64_byte(d[i], 0));
        assert(bytes[base + 1 + 8 * i] == u64_byte(d[i], 1));
        assert(bytes[base + 2 + 8 * i] == u64_byte(d[i], 2));
        assert(bytes[base + 3 + 8 * i] == u64_byte(d[i], 3));
        assert(bytes[base + 4 + 8 * i] == u64_byte(d[i], 4));
        assert(bytes[base + 5 + 8 * i] == u64_byte(d[i], 5));
        assert(bytes[base + 6 + 8 * i] == u64_byte(d[i], 6));
        assert(bytes[base + 7 + 8 * i] == u64_byte(d[i], 7));
        lemma_le64_round_trip(d[i]);
    }
}

/// Law: serializing a well-formed chunk and parsing the result yields the
/// chunk's palette and word array back, exactly.  Together with the reading
/// of voxels through `id_at`, every voxel survives the round trip.
#[verifier::spinoff_prover]
#[verifier::rlimit(100)]
pub proof fn lemma_serialize_round_trip(c: Chunk)
    requires
        c.wf(),
        c.spec_palette().len() <= 65535,
    ensures
        spec_parse(spec_serialize(c.spec_palette(), c.spec_data())) == Some(
            (c.spec_palette(), c.spec_data()),
        ),
{
    let p = c.spec_palette();
    let d = c.spec_data();
    let bytes = spec_serialize(p, d);
    let plen = p.len() as int;
    lemma_width_for_basic(plen);
    lemma_le16_round_trip(plen as u16);
    assert(bytes[0] == u16_byte(plen as u16, 0));
    assert(bytes[1] == u16_byte(plen as u16, 1));
    assert(le16_val(bytes[0], bytes[1]) == plen as u16);
    lemma_round_trip_palette(p, d);
    lemma_round_trip_data(p, d);
    if c.width() >= 1 {
        assert forall|i: int| 0 <= i < 32768 implies packed_get(d, c.width(), i) < plen by {
            assert(c.id_at(i) < p.len());
        }
    }
    lemma_parse_shape(bytes, plen, d.len() as int, p, d);
}

/// Law: once a chunk's distinct block-type count exceeds a width's
/// capacity, a well-formed chunk stores at a strictly greater width, and
/// its word array never exceeds the word count of its width.
pub proof fn lemma_storage_width(c: Chunk, k: u64)
    requires
        c.wf(),
        valid_width(k),
        c.spec_palette().len() > capacity_of(k),
    ensures
        c.width() > k,
        c.spec_data().len() <= words_for(c.width()),
{
    lemma_width_for_basic(c.spec_palette().len() as int);
    if c.width() <= k {
        lemma_capacity_monotonic(c.width(), k);
    }
}



/// Distinct chunk-local coordinates have distinct linear indices.
pub proof fn lemma_local_lin_injective(a: Vec3i, b: Vec3i)
    requires
        local_in_range(a),
        local_in_range(b),
        a != b,
    ensures
        a.spec_lin() != b.spec_lin(),
{
}

/// Law: a write is the last word on its voxel.  After `set_block`, whose
/// contract makes the new view an update of the old one, the written voxel
/// reads as the written block and every other voxel is unchanged.
pub proof fn lemma_last_write_wins(c0: Chunk, c1: Chunk, pos: Vec3i, b: Block)
    requires
        local_in_range(pos),
        c1@ == c0@.update(pos.spec_lin(), b.block_type),
    ensures
        c1@[pos.spec_lin()] == b.block_type,
        forall|q: Vec3i|
            local_in_range(q) && q != pos ==> c1@[(#[trigger] q.spec_lin())] == c0@[q.spec_lin()],
{
    assert forall|q: Vec3i|
        local_in_range(q) && q != pos implies c1@[(#[trigger] q.spec_lin())] == c0@[
        q.spec_lin()
    ] by {
        lemma_local_lin_injective(q, pos);
    }
}


} // verus!
