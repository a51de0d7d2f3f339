//! Fixed-width bit fields packed into a flat array of 64-bit words.
//!
//! A chunk stores one palette index per voxel at one of the widths below;
//! `packed_get` is the mathematical reading of such an array and
//! `packed_read` / `packed_write` are the verified accessors.

use vstd::prelude::*;

verus! {

/// The widths a packed array may use. `0` is the degenerate width of a
/// homogeneous chunk, which stores no words at all.
pub open spec fn valid_width(w: u64) -> bool {
    w == 0 || w == 1 || w == 2 || w == 3 || w == 4 || w == 5 || w == 6 || w == 7 || w == 8 || w == 9
        || w == 10 || w == 12 || w == 16
}

/// The smallest valid width whose capacity `2^w` holds `len` distinct values.
pub open spec fn width_for(len: int) -> u64 {
    if len <= 1 {
        0
    } else if len <= 2 {
        1
    } else if len <= 4 {
        2
    } else if len <= 8 {
        3
    } else if len <= 16 {
        4
    } else if len <= 32 {
        5
    } else if len <= 64 {
        6
    } else if len <= 128 {
        7
    } else if len <= 256 {
        8
    } else if len <= 512 {
        9
    } else if len <= 1024 {
        10
    } else if len <= 4096 {
        12
    } else {
        16
    }
}

/// How many values a width can distinguish.
pub open spec fn capacity_of(w: u64) -> int {
    if w == 0 {
        1
    } else if w == 1 {
        2
    } else if w == 2 {
        4
    } else if w == 3 {
        8
    } else if w == 4 {
        16
    } else if w == 5 {
        32
    } else if w == 6 {
        64
    } else if w == 7 {
        128
    } else if w == 8 {
        256
    } else if w == 9 {
        512
    } else if w == 10 {
        1024
    } else if w == 12 {
        4096
    } else {
        65536
    }
}

/// How many fields fit in one 64-bit word.
pub open spec fn bpe_of(w: u64) -> u64 {
    if w == 0 {
        64
    } else if w == 1 {
        64
    } else if w == 2 {
        32
    } else if w == 3 {
        21
    } else if w == 4 {
        16
    } else if w == 5 {
        12
    } else if w == 6 {
        10
    } else if w == 7 {
        9
    } else if w == 8 {
        8
    } else if w == 9 {
        7
    } else if w == 10 {
        6
    } else if w == 12 {
        5
    } else {
        4
    }
}

pub open spec fn mask_of(w: u64) -> u64 {
    if w == 0 {
        0
    } else if w == 1 {
        1
    } else if w == 2 {
        3
    } else if w == 3 {
        7
    } else if w == 4 {
        15
    } else if w == 5 {
        31
    } else if w == 6 {
        63
    } else if w == 7 {
        127
    } else if w == 8 {
        255
    } else if w == 9 {
        511
    } else if w == 10 {
        1023
    } else if w == 12 {
        4095
    } else {
        65535
    }
}

/// The word count of a packed array holding 32768 fields of width `w`.
pub open spec fn words_for(w: u64) -> int {
    if w == 0 {
        0
    } else if w == 1 {
        512
    } else if w == 2 {
        1024
    } else if w == 3 {
        1561
    } else if w == 4 {
        2048
    } else if w == 5 {
        2731
    } else if w == 6 {
        3277
    } else if w == 7 {
        3641
    } else if w == 8 {
        4096
    } else if w == 9 {
        4682
    } else if w == 10 {
        5462
    } else if w == 12 {
        6554
    } else {
        8192
    }
}

/// The `i`-th field of a packed array, read mathematically.
pub open spec fn packed_get(data: Seq<u64>, w: u64, i: int) -> u64 {
    (data[i / (bpe_of(w) as int)] >> (((i % (bpe_of(w) as int)) * w) as u64)) & mask_of(w)
}

/// Elementary facts about each valid width.
pub proof fn lemma_width_facts(w: u64)
    requires
        valid_width(w),
        w >= 1,
    ensures
        4 <= bpe_of(w) <= 64,
        bpe_of(w) * w <= 64,
        512 <= words_for(w) <= 8192,
        words_for(w) * bpe_of(w) >= 32768,
{
    if w == 1 {
    } else if w == 2 {
    } else if w == 3 {
    } else if w == 4 {
    } else if w == 5 {
    } else if w == 6 {
    } else if w == 7 {
    } else if w == 8 {
    } else if w == 9 {
    } else if w == 10 {
    } else if w == 12 {
    } else {
    }
}

/// Word index and bit offset of field `i` are always in range.
pub proof fn lemma_packed_bounds(w: u64, i: int)
    requires
        valid_width(w),
        w >= 1,
        0 <= i < 32768,
    ensures
        0 <= i / (bpe_of(w) as int) < words_for(w),
        0 <= (i % (bpe_of(w) as int)) * w,
        (i % (bpe_of(w) as int)) * w + w <= 64,
{
    lemma_width_facts(w);
    let c = bpe_of(w) as int;
    let wd = words_for(w);
    vstd::arithmetic::div_mod::lemma_div_pos_is_pos(i, c);
    vstd::arithmetic::div_mod::lemma_mod_division_less_than_divisor(i, c);
    vstd::arithmetic::mul::lemma_mul_is_commutative(wd, c);
    vstd::arithmetic::div_mod::lemma_multiply_divide_lt(i, c, wd);
    vstd::arithmetic::mul::lemma_mul_nonnegative(i % c, w as int);
    vstd::arithmetic::mul::lemma_mul_inequality(i % c, c - 1, w as int);
    vstd::arithmetic::mul::lemma_mul_is_distributive_sub_other_way(w as int, c, 1);
}

/// Two distinct fields of the same word occupy disjoint bit ranges.
pub proof fn lemma_packed_offsets_distinct(w: u64, i: int, j: int)
    requires
        valid_width(w),
        w >= 1,
        0 <= i < 32768,
        0 <= j < 32768,
        i != j,
        i / (bpe_of(w) as int) == j / (bpe_of(w) as int),
    ensures
        (i % (bpe_of(w) as int)) * w + w <= (j % (bpe_of(w) as int)) * w || (j % (bpe_of(w) as int)) * w
            + w <= (i % (bpe_of(w) as int)) * w,
{
    lemma_width_facts(w);
    let c = bpe_of(w) as int;
    vstd::arithmetic::div_mod::lemma_fundamental_div_mod(i, c);
    vstd::arithmetic::div_mod::lemma_fundamental_div_mod(j, c);
    vstd::arithmetic::div_mod::lemma_mod_division_less_than_divisor(i, c);
    vstd::arithmetic::div_mod::lemma_mod_division_less_than_divisor(j, c);
    assert(i % c != j % c);
    if i % c < j % c {
        vstd::arithmetic::mul::lemma_mul_inequality((i % c) + 1, j % c, w as int);
        vstd::arithmetic::mul::lemma_mul_is_distributive_add_other_way(w as int, i % c, 1);
    } else {
        vstd::arithmetic::mul::lemma_mul_inequality((j % c) + 1, i % c, w as int);
        vstd::arithmetic::mul::lemma_mul_is_distributive_add_other_way(w as int, j % c, 1);
    }
}

proof fn lemma_field_update_same(word: u64, w: u64, o: u64, v: u64)
    by (bit_vector)
    requires
        valid_width(w),
        w >= 1,
        o + w <= 64,
        v <= mask_of(w),
    ensures
        (((word & !(mask_of(w) << o)) | (v << o)) >> o) & mask_of(w) == v,
{
}

proof fn lemma_field_update_other(word: u64, w: u64, o1: u64, o2: u64, v: u64)
    by (bit_vector)
    requires
        valid_width(w),
        w >= 1,
        o1 + w <= 64,
        o2 + w <= 64,
        o1 + w <= o2 || o2 + w <= o1,
        v <= mask_of(w),
    ensures
        (((word & !(mask_of(w) << o1)) | (v << o1)) >> o2) & mask_of(w) == (word >> o2) & mask_of(
            w,
        ),
{
}

proof fn lemma_field_bound(word: u64, w: u64, o: u64)
    by (bit_vector)
    requires
        valid_width(w),
        w >= 1,
    ensures
        (word >> o) & mask_of(w) <= mask_of(w),
{
}

pub fn mask_val(w: u64) -> (m: u64)
    requires
        valid_width(w),
    ensures
        m == mask_of(w),
{
    if w == 0 {
        0
    } else if w == 1 {
        1
    } else if w == 2 {
        3
    } else if w == 3 {
        7
    } else if w == 4 {
        15
    } else if w == 5 {
        31
    } else if w == 6 {
        63
    } else if w == 7 {
        127
    } else if w == 8 {
        255
    } else if w == 9 {
        511
    } else if w == 10 {
        1023
    } else if w == 12 {
        4095
    } else {
        65535
    }
}

pub fn bpe_val(w: u64) -> (b: u64)
    requires
        valid_width(w),
    ensures
        b == bpe_of(w),
{
    if w == 0 {
        64
    } else if w == 1 {
        64
    } else if w == 2 {
        32
    } else if w == 3 {
        21
    } else if w == 4 {
        16
    } else if w == 5 {
        12
    } else if w == 6 {
        10
    } else if w == 7 {
        9
    } else if w == 8 {
        8
    } else if w == 9 {
        7
    } else if w == 10 {
        6
    } else if w == 12 {
        5
    } else {
        4
    }
}

pub fn words_val(w: u64) -> (n: usize)
    requires
        valid_width(w),
    ensures
        n == words_for(w),
{
    if w == 0 {
        0
    } else if w == 1 {
        512
    } else if w == 2 {
        1024
    } else if w == 3 {
        1561
    } else if w == 4 {
        2048
    } else if w == 5 {
        2731
    } else if w == 6 {
        3277
    } else if w == 7 {
        3641
    } else if w == 8 {
        4096
    } else if w == 9 {
        4682
    } else if w == 10 {
        5462
    } else if w == 12 {
        6554
    } else {
        8192
    }
}

/// Reads the `i`-th field of a packed array of width `w`.
pub fn packed_read(data: &Vec<u64>, w: u64, i: usize) -> (r: u64)
    requires
        valid_width(w),
        w >= 1,
        data@.len() == words_for(w),
        i < 32768,
    ensures
        r == packed_get(data@, w, i as int),
        r <= mask_of(w),
{
    proof {
        lemma_packed_bounds(w, i as int);
    }
    let bpe = bpe_val(w);
    let e = i / (bpe as usize);
    let off = ((i as u64) % bpe) * w;
    let r = (data[e] >> off) & mask_val(w);
    proof {
        lemma_field_bound(data@[e as int], w, off);
    }
    r
}

/// Writes the `i`-th field of a packed array of width `w`, leaving every
/// other field unchanged.
pub fn packed_write(data: &mut Vec<u64>, w: u64, i: usize, v: u64)
    requires
        valid_width(w),
        w >= 1,
        old(data)@.len() == words_for(w),
        i < 32768,
        v <= mask_of(w),
    ensures
        final(data)@.len() == old(data)@.len(),
        packed_get(final(data)@, w, i as int) == v,
        forall|j: int|
            0 <= j < 32768 && j != i ==> packed_get(final(data)@, w, j) == packed_get(
                old(data)@,
                w,
                j,
            ),
{
    proof {
        lemma_packed_bounds(w, i as int);
    }
    let bpe = bpe_val(w);
    let e = i / (bpe as usize);
    let off = ((i as u64) % bpe) * w;
    let m = mask_val(w);
    let word = data[e];
    data.set(e, (word & !(m << off)) | (v << off));
    proof {
        lemma_field_update_same(word, w, off, v);
        assert forall|j: int| 0 <= j < 32768 && j != i implies packed_get(data@, w, j)
            == packed_get(old(data)@, w, j) by {
            lemma_packed_bounds(w, j);
            if j / (bpe_of(w) as int) == e as int {
                lemma_packed_offsets_distinct(w, i as int, j);
                lemma_field_update_other(word, w, off, ((j % (bpe_of(w) as int)) * w) as u64, v);
            }
        }
    }
}

} // verus!
