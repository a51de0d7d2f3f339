//! Face extraction: turning one chunk's voxels (and its neighbors across
//! chunk boundaries) into the per-direction quad lists the renderer draws.
//!
//! A face exists exactly where a voxel's occupancy differs from its
//! neighbor in a positive axis direction; each face carries a texture id
//! keyed by block type and direction, and a four-corner ambient-occlusion
//! light derived from the eight diagonal neighbors around the face.

use vstd::prelude::*;

use crate::chunk_map::ChunkMap;
use crate::direction::Direction;
use crate::pos::{local_in_range, Vec3i};

verus! {

/// One quad of a chunk mesh: the face's local position, direction and
/// texture id packed into one word (6+6+6 bits of position, 3 of
/// direction, 11 of texture), plus one light byte per corner packed into
/// another word.
#[derive(Clone, Copy, PartialEq, Eq, Debug)]
pub struct Face {
    pub pos_dir_tex: u32,
    pub light: u32,
}

/// Chunk coordinates whose whole neighborhood of world voxel coordinates
/// stays representable; only these are meshed.
pub open spec fn meshable(c: Vec3i) -> bool {
    &&& -0x3ffffff <= c.x <= 0x3fffffe
    &&& -0x3ffffff <= c.y <= 0x3fffffe
    &&& -0x3ffffff <= c.z <= 0x3fffffe
}

/// Component-wise addition, truncating; used only where the operands are
/// known to stay in range.
pub open spec fn vadd(a: Vec3i, b: Vec3i) -> Vec3i {
    Vec3i { x: (a.x + b.x) as i32, y: (a.y + b.y) as i32, z: (a.z + b.z) as i32 }
}

/// The world voxel coordinate of a face-local position in a chunk.
pub open spec fn world_of(cpos: Vec3i, fp: Vec3i) -> Vec3i {
    Vec3i {
        x: (cpos.x * 32 + fp.x) as i32,
        y: (cpos.y * 32 + fp.y) as i32,
        z: (cpos.z * 32 + fp.z) as i32,
    }
}

pub open spec fn full_at(m: ChunkMap, p: Vec3i) -> bool {
    m.spec_block_at(p) > 0
}

/// The texture id for a block type seen from a direction.
pub open spec fn texture_of(bt: u16, d: int) -> u32 {
    if bt == 1 {
        if d == 4 {
            2
        } else if d == 5 {
            1
        } else {
            0
        }
    } else if bt == 2 {
        2
    } else if bt == 3 {
        3
    } else if bt == 4 {
        4
    } else {
        0
    }
}

/// Face brightness per direction, in tenths.
pub open spec fn light_num(d: int) -> int {
    if d == 0 || d == 1 {
        4
    } else if d == 2 || d == 3 {
        7
    } else if d == 4 {
        1
    } else {
        10
    }
}

/// One corner's light byte: 255 in the open, 55 when a diagonal neighbor
/// occludes the corner, scaled by the direction's brightness.
pub open spec fn corner_light(occl: bool, d: int) -> int {
    (if occl {
        55int
    } else {
        255int
    }) * light_num(d) / 10
}

/// The eight sample offsets around a face, in face-local coordinates
/// (`+y` is the face normal).
pub open spec fn ao_offset(k: int) -> Vec3i {
    if k == 0 {
        Vec3i { x: 1, y: 1, z: 0 }
    } else if k == 1 {
        Vec3i { x: 1, y: 1, z: 1 }
    } else if k == 2 {
        Vec3i { x: 0, y: 1, z: 1 }
    } else if k == 3 {
        Vec3i { x: -1i32, y: 1, z: 1 }
    } else if k == 4 {
        Vec3i { x: -1i32, y: 1, z: 0 }
    } else if k == 5 {
        Vec3i { x: -1i32, y: 1, z: -1i32 }
    } else if k == 6 {
        Vec3i { x: 0, y: 1, z: -1i32 }
    } else {
        Vec3i { x: 1, y: 1, z: -1i32 }
    }
}

/// Whether the diagonal neighbor `k` of the face at world position `fw`
/// facing `d` is occupied.
pub open spec fn ao_full(m: ChunkMap, fw: Vec3i, d: int, k: int) -> bool {
    full_at(m, vadd(fw, Direction { id: d as u8 }.spec_transform(ao_offset(k))))
}

/// The packed four-corner light of a face.
pub open spec fn face_light(m: ChunkMap, fw: Vec3i, d: int) -> u32 {
    let c0 = corner_light(ao_full(m, fw, d, 4) || ao_full(m, fw, d, 5) || ao_full(m, fw, d, 6), d);
    let c1 = corner_light(ao_full(m, fw, d, 2) || ao_full(m, fw, d, 3) || ao_full(m, fw, d, 4), d);
    let c2 = corner_light(ao_full(m, fw, d, 0) || ao_full(m, fw, d, 1) || ao_full(m, fw, d, 2), d);
    let c3 = corner_light(ao_full(m, fw, d, 6) || ao_full(m, fw, d, 7) || ao_full(m, fw, d, 0), d);
    (c0 + c1 * 256 + c2 * 65536 + c3 * 16777216) as u32
}

/// The packed position + direction + texture word of a face.
pub open spec fn face_code(fp: Vec3i, d: int, tex: u32) -> u32 {
    (fp.x + fp.y * 64 + fp.z * 4096 + d * 262144 + tex * 2097152) as u32
}

/// The unit vector of the axis a direction pair tests.
pub open spec fn axis_unit(d: int) -> Vec3i {
    if d == 0 || d == 1 {
        Vec3i { x: 1, y: 0, z: 0 }
    } else if d == 2 || d == 3 {
        Vec3i { x: 0, y: 0, z: 1 }
    } else {
        Vec3i { x: 0, y: 1, z: 0 }
    }
}

/// Where the face of direction `d` generated by cell `lp` sits: on the
/// cell itself for positive directions, on the neighbor for negative ones.
pub open spec fn face_pos(lp: Vec3i, d: int) -> Vec3i {
    if d == 1 || d == 3 || d == 5 {
        lp
    } else {
        vadd(lp, axis_unit(d))
    }
}

/// Whether cell `lp` of chunk `cpos` emits a face in direction `d`: its
/// occupancy must differ from the next voxel along the axis, with the full
/// voxel on the side the face belongs to.
pub open spec fn needs_face(m: ChunkMap, cpos: Vec3i, lp: Vec3i, d: int) -> bool {
    let a = full_at(m, world_of(cpos, lp));
    let b = full_at(m, world_of(cpos, vadd(lp, axis_unit(d))));
    if d == 1 || d == 3 || d == 5 {
        a && !b
    } else {
        !a && b
    }
}

/// The face cell `lp` emits in direction `d`.
pub open spec fn face_at(m: ChunkMap, cpos: Vec3i, lp: Vec3i, d: int) -> Face {
    let fp = face_pos(lp, d);
    let fw = world_of(cpos, fp);
    let bt = m.spec_block_at(fw);
    Face { pos_dir_tex: face_code(fp, d, texture_of(bt, d)), light: face_light(m, fw, d) }
}

/// The cell a linear index enumerates.
pub open spec fn cell_of(j: int) -> Vec3i {
    Vec3i { x: (j % 32) as i32, y: (j / 1024) as i32, z: ((j / 32) % 32) as i32 }
}

/// A per-direction face list holds exactly the faces of the first `upto`
/// cells that need one, each exactly once.
pub open spec fn dir_list_ok(m: ChunkMap, cpos: Vec3i, v: Seq<Face>, d: int, upto: int) -> bool {
    &&& v.no_duplicates()
    &&& forall|f: Face|
        #[trigger] v.contains(f) <==> exists|j: int|
            0 <= j < upto && #[trigger] needs_face(m, cpos, cell_of(j), d) && f == face_at(
                m,
                cpos,
                cell_of(j),
                d,
            )
}

/// Six face lists describe the chunk completely: for every direction, a
/// face is listed exactly when some cell needs it — one quad per occupancy
/// mismatch, no more.
pub open spec fn mesh_lists_ok(m: ChunkMap, cpos: Vec3i, lists: Seq<Vec<Face>>) -> bool {
    &&& lists.len() == 6
    &&& forall|d: int| 0 <= d < 6 ==> dir_list_ok(m, cpos, (#[trigger] lists[d])@, d, 32768)
}

/// A cell is recovered from its enumeration index, so the enumeration is
/// injective.
proof fn lemma_cell_of_reconstruct(j: int)
    requires
        0 <= j < 32768,
    ensures
        local_in_range(cell_of(j)),
        cell_of(j).x + 32 * cell_of(j).z + 1024 * cell_of(j).y == j,
{
    vstd::arithmetic::div_mod::lemma_fundamental_div_mod(j, 32);
    vstd::arithmetic::div_mod::lemma_fundamental_div_mod(j / 32, 32);
    vstd::arithmetic::div_mod::lemma_div_denominator(j, 32, 32);
    vstd::arithmetic::div_mod::lemma_mod_division_less_than_divisor(j, 32);
    vstd::arithmetic::div_mod::lemma_mod_division_less_than_divisor(j / 32, 32);
    vstd::arithmetic::div_mod::lemma_div_pos_is_pos(j, 32);
    vstd::arithmetic::div_mod::lemma_div_pos_is_pos(j / 32, 32);
    vstd::arithmetic::div_mod::lemma_div_pos_is_pos(j, 1024);
}

/// The packed word of a face determines its position digits.
proof fn lemma_face_code_fields(fp: Vec3i, d: int, tex: u32)
    requires
        0 <= fp.x <= 32,
        0 <= fp.y <= 32,
        0 <= fp.z <= 32,
        0 <= d < 8,
        tex <= 2047,
    ensures
        (face_code(fp, d, tex) as int) % 64 == fp.x,
        ((face_code(fp, d, tex) as int) / 64) % 64 == fp.y,
        (((face_code(fp, d, tex) as int) / 64) / 64) % 64 == fp.z,
{
    let q2 = fp.z + 64 * d + 512 * (tex as int);
    let q1 = fp.y + 64 * q2;
    let s = fp.x + 64 * q1;
    assert(s == fp.x + fp.y * 64 + fp.z * 4096 + d * 262144 + tex * 2097152);
    assert(face_code(fp, d, tex) as int == s);
    vstd::arithmetic::div_mod::lemma_fundamental_div_mod_converse_mod(s, 64, q1, fp.x as int);
    vstd::arithmetic::div_mod::lemma_fundamental_div_mod_converse_div(s, 64, q1, fp.x as int);
    vstd::arithmetic::div_mod::lemma_fundamental_div_mod_converse_mod(q1, 64, q2, fp.y as int);
    vstd::arithmetic::div_mod::lemma_fundamental_div_mod_converse_div(q1, 64, q2, fp.y as int);
    vstd::arithmetic::div_mod::lemma_fundamental_div_mod_converse_mod(
        q2,
        64,
        d + 8 * (tex as int),
        fp.z as int,
    );
}

/// Distinct cells emit distinct faces in any one direction: the packed
/// word recovers the face position, and the face position recovers the
/// cell.
proof fn lemma_face_at_injective(m: ChunkMap, cpos: Vec3i, j1: int, j2: int, d: int)
    requires
        0 <= j1 < 32768,
        0 <= j2 < 32768,
        j1 != j2,
        0 <= d < 6,
    ensures
        face_at(m, cpos, cell_of(j1), d) != face_at(m, cpos, cell_of(j2), d),
{
    lemma_cell_of_reconstruct(j1);
    lemma_cell_of_reconstruct(j2);
    let lp1 = cell_of(j1);
    let lp2 = cell_of(j2);
    assert(lp1 != lp2);
    let fp1 = face_pos(lp1, d);
    let fp2 = face_pos(lp2, d);
    assert(fp1 != fp2);
    let t1 = texture_of(m.spec_block_at(world_of(cpos, fp1)), d);
    let t2 = texture_of(m.spec_block_at(world_of(cpos, fp2)), d);
    assert(t1 <= 4 && t2 <= 4);
    lemma_face_code_fields(fp1, d, t1);
    lemma_face_code_fields(fp2, d, t2);
}


fn world_of_exec(cpos: Vec3i, fp: Vec3i) -> (r: Vec3i)
    requires
        meshable(cpos),
        0 <= fp.x <= 32,
        0 <= fp.y <= 32,
        0 <= fp.z <= 32,
    ensures
        r == world_of(cpos, fp),
        -0x7fffffe0 <= r.x <= 0x7fffffe0,
        -0x7fffffe0 <= r.y <= 0x7fffffe0,
        -0x7fffffe0 <= r.z <= 0x7fffffe0,
{
    Vec3i { x: cpos.x * 32 + fp.x, y: cpos.y * 32 + fp.y, z: cpos.z * 32 + fp.z }
}

fn texture_val(bt: u16, d: u8) -> (t: u32)
    ensures
        t == texture_of(bt, d as int),
        t <= 4,
{
    if bt == 1 {
        if d == 4 {
            2
        } else if d == 5 {
            1
        } else {
            0
        }
    } else if bt == 2 {
        2
    } else if bt == 3 {
        3
    } else if bt == 4 {
        4
    } else {
        0
    }
}

fn corner_val(occl: bool, d: u8) -> (v: u32)
    requires
        d < 6,
    ensures
        v == corner_light(occl, d as int),
        v <= 255,
{
    let base: u32 = if occl {
        55
    } else {
        255
    };
    let num: u32 = if d <= 1 {
        4
    } else if d <= 3 {
        7
    } else if d == 4 {
        1
    } else {
        10
    };
    (base * num) / 10
}

fn ao_val(map: &ChunkMap, fw: Vec3i, d: u8, k: u8) -> (r: bool)
    requires
        map.wf(),
        d < 6,
        k < 8,
        -0x7fffffe0 <= fw.x <= 0x7fffffe0,
        -0x7fffffe0 <= fw.y <= 0x7fffffe0,
        -0x7fffffe0 <= fw.z <= 0x7fffffe0,
    ensures
        r == ao_full(*map, fw, d as int, k as int),
{
    let off = if k == 0 {
        Vec3i { x: 1, y: 1, z: 0 }
    } else if k == 1 {
        Vec3i { x: 1, y: 1, z: 1 }
    } else if k == 2 {
        Vec3i { x: 0, y: 1, z: 1 }
    } else if k == 3 {
        Vec3i { x: -1, y: 1, z: 1 }
    } else if k == 4 {
        Vec3i { x: -1, y: 1, z: 0 }
    } else if k == 5 {
        Vec3i { x: -1, y: 1, z: -1 }
    } else if k == 6 {
        Vec3i { x: 0, y: 1, z: -1 }
    } else {
        Vec3i { x: 1, y: 1, z: -1 }
    };
    let dir = Direction { id: d };
    let t = dir.transform(off);
    proof {
        assert(-1 <= t.x <= 1 && -1 <= t.y <= 1 && -1 <= t.z <= 1);
    }
    let p = Vec3i { x: fw.x + t.x, y: fw.y + t.y, z: fw.z + t.z };
    map.get_block(p).is_full_block()
}

/// Builds the face that cell `lp` emits in direction `d`, texture and
/// four-corner light included.
#[verifier::spinoff_prover]
#[verifier::rlimit(100)]
fn face_for(map: &ChunkMap, cpos: Vec3i, lp: Vec3i, d: u8) -> (f: Face)
    requires
        map.wf(),
        meshable(cpos),
        local_in_range(lp),
        d < 6,
    ensures
        f == face_at(*map, cpos, lp, d as int),
{
    let fp = if d == 1 || d == 3 || d == 5 {
        lp
    } else if d == 0 {
        Vec3i { x: lp.x + 1, y: lp.y, z: lp.z }
    } else if d == 2 {
        Vec3i { x: lp.x, y: lp.y, z: lp.z + 1 }
    } else {
        Vec3i { x: lp.x, y: lp.y + 1, z: lp.z }
    };
    proof {
        assert(fp == face_pos(lp, d as int));
    }
    let fw = world_of_exec(cpos, fp);
    let bt = map.get_block(fw).block_type;
    let tex = texture_val(bt, d);
    let o0 = ao_val(map, fw, d, 0);
    let o1 = ao_val(map, fw, d, 1);
    let o2 = ao_val(map, fw, d, 2);
    let o3 = ao_val(map, fw, d, 3);
    let o4 = ao_val(map, fw, d, 4);
    let o5 = ao_val(map, fw, d, 5);
    let o6 = ao_val(map, fw, d, 6);
    let o7 = ao_val(map, fw, d, 7);
    let c0 = corner_val(o4 || o5 || o6, d);
    let c1 = corner_val(o2 || o3 || o4, d);
    let c2 = corner_val(o0 || o1 || o2, d);
    let c3 = corner_val(o6 || o7 || o0, d);
    let light = c0 + c1 * 256 + c2 * 65536 + c3 * 16777216;
    let code = (fp.x as u32) + (fp.y as u32) * 64 + (fp.z as u32) * 4096 + (d as u32) * 262144
        + tex * 2097152;
    Face { pos_dir_tex: code, light }
}

/// Handles one cell for one axis: compares the cell against its positive
/// neighbor and appends the face, if any, to the list of the direction it
/// belongs to.
fn mesh_axis(
    map: &ChunkMap,
    cpos: Vec3i,
    lp: Vec3i,
    dpos: u8,
    dneg: u8,
    vpos: &mut Vec<Face>,
    vneg: &mut Vec<Face>,
    Ghost(j): Ghost<int>,
)
    requires
        map.wf(),
        meshable(cpos),
        local_in_range(lp),
        (dpos == 1 && dneg == 0) || (dpos == 3 && dneg == 2) || (dpos == 5 && dneg == 4),
        0 <= j < 32768,
        cell_of(j) == lp,
        dir_list_ok(*map, cpos, old(vpos)@, dpos as int, j),
        dir_list_ok(*map, cpos, old(vneg)@, dneg as int, j),
    ensures
        dir_list_ok(*map, cpos, final(vpos)@, dpos as int, j + 1),
        dir_list_ok(*map, cpos, final(vneg)@, dneg as int, j + 1),
{
    let unit = if dpos == 1 {
        Vec3i { x: 1, y: 0, z: 0 }
    } else if dpos == 3 {
        Vec3i { x: 0, y: 0, z: 1 }
    } else {
        Vec3i { x: 0, y: 1, z: 0 }
    };
    proof {
        assert(unit == axis_unit(dpos as int));
        assert(unit == axis_unit(dneg as int));
    }
    let w1 = world_of_exec(cpos, lp);
    let np = Vec3i { x: lp.x + unit.x, y: lp.y + unit.y, z: lp.z + unit.z };
    proof {
        assert(np == vadd(lp, axis_unit(dpos as int)));
    }
    let w2 = world_of_exec(cpos, np);
    let b1 = map.get_block(w1).is_full_block();
    let b2 = map.get_block(w2).is_full_block();
    proof {
        assert(b1 == full_at(*map, world_of(cpos, lp)));
        assert(b2 == full_at(*map, world_of(cpos, vadd(lp, axis_unit(dpos as int)))));
    }
    if b1 && !b2 {
        let f = face_for(map, cpos, lp, dpos);
        let ghost v0 = vpos@;
        vpos.push(f);
        proof {
            lemma_dir_list_push(*map, cpos, v0, vpos@, dpos as int, j, f);
            lemma_dir_list_skip(*map, cpos, vneg@, dneg as int, j);
        }
    } else if !b1 && b2 {
        let f = face_for(map, cpos, lp, dneg);
        let ghost v0 = vneg@;
        vneg.push(f);
        proof {
            lemma_dir_list_push(*map, cpos, v0, vneg@, dneg as int, j, f);
            lemma_dir_list_skip(*map, cpos, vpos@, dpos as int, j);
        }
    } else {
        proof {
            lemma_dir_list_skip(*map, cpos, vpos@, dpos as int, j);
            lemma_dir_list_skip(*map, cpos, vneg@, dneg as int, j);
        }
    }
}

/// Appending the face cell `j` needs extends the list's coverage to
/// `j+1`; the face is new to the list, so it stays duplicate-free.
proof fn lemma_dir_list_push(
    m: ChunkMap,
    cpos: Vec3i,
    v0: Seq<Face>,
    v1: Seq<Face>,
    d: int,
    j: int,
    f: Face,
)
    requires
        0 <= j < 32768,
        0 <= d < 6,
        dir_list_ok(m, cpos, v0, d, j),
        needs_face(m, cpos, cell_of(j), d),
        f == face_at(m, cpos, cell_of(j), d),
        v1 == v0.push(f),
    ensures
        dir_list_ok(m, cpos, v1, d, j + 1),
{
    assert(!v0.contains(f)) by {
        if v0.contains(f) {
            let jj = choose|jj: int|
                0 <= jj < j && #[trigger] needs_face(m, cpos, cell_of(jj), d) && f == face_at(
                    m,
                    cpos,
                    cell_of(jj),
                    d,
                );
            lemma_face_at_injective(m, cpos, jj, j, d);
        }
    }
    assert forall|a: int, b: int| 0 <= a < b < v1.len() implies v1[a] != v1[b] by {
        if b == v1.len() - 1 {
            assert(v0.contains(v0[a]));
        }
    }
    assert forall|g: Face| #[trigger] v1.contains(g) implies exists|jj: int|
        0 <= jj < j + 1 && #[trigger] needs_face(m, cpos, cell_of(jj), d) && g == face_at(
        m,
        cpos,
        cell_of(jj),
        d,
    ) by {
        let mi = choose|mi: int| 0 <= mi < v1.len() && v1[mi] == g;
        if mi < v0.len() {
            assert(v1[mi] == v0[mi]);
            assert(v0.contains(g));
            let jj = choose|jj: int|
                0 <= jj < j && #[trigger] needs_face(m, cpos, cell_of(jj), d) && g == face_at(
                    m,
                    cpos,
                    cell_of(jj),
                    d,
                );
            assert(0 <= jj < j + 1 && needs_face(m, cpos, cell_of(jj), d) && g == face_at(
                m,
                cpos,
                cell_of(jj),
                d,
            ));
        } else {
            assert(mi == v0.len());
            assert(g == f);
            assert(0 <= j < j + 1 && needs_face(m, cpos, cell_of(j), d) && g == face_at(
                m,
                cpos,
                cell_of(j),
                d,
            ));
        }
    }
    assert forall|g: Face|
        (exists|jj: int|
            0 <= jj < j + 1 && #[trigger] needs_face(m, cpos, cell_of(jj), d) && g == face_at(
                m,
                cpos,
                cell_of(jj),
                d,
            )) implies #[trigger] v1.contains(g) by {
        let jj = choose|jj: int|
            0 <= jj < j + 1 && #[trigger] needs_face(m, cpos, cell_of(jj), d) && g == face_at(
                m,
                cpos,
                cell_of(jj),
                d,
            );
        if jj < j {
            assert(v0.contains(g));
            let mi = choose|mi: int| 0 <= mi < v0.len() && v0[mi] == g;
            assert(v1[mi] == g);
        } else {
            assert(v1[v1.len() - 1] == g);
        }
    }
}

/// A cell that needs no face leaves the list's coverage intact.
proof fn lemma_dir_list_skip(m: ChunkMap, cpos: Vec3i, v: Seq<Face>, d: int, j: int)
    requires
        0 <= j,
        dir_list_ok(m, cpos, v, d, j),
        !needs_face(m, cpos, cell_of(j), d),
    ensures
        dir_list_ok(m, cpos, v, d, j + 1),
{
    assert forall|g: Face|
        (exists|jj: int|
            0 <= jj < j + 1 && #[trigger] needs_face(m, cpos, cell_of(jj), d) && g == face_at(
                m,
                cpos,
                cell_of(jj),
                d,
            )) implies #[trigger] v.contains(g) by {
        let jj = choose|jj: int|
            0 <= jj < j + 1 && #[trigger] needs_face(m, cpos, cell_of(jj), d) && g == face_at(
                m,
                cpos,
                cell_of(jj),
                d,
            );
        assert(jj < j);
    }
}

/// Builds the six per-direction face lists of the chunk at `cpos` from
/// the loaded world, reading across chunk boundaries where needed.
pub fn create_mesh(map: &ChunkMap, cpos: Vec3i) -> (r: Vec<Vec<Face>>)
    requires
        map.wf(),
        meshable(cpos),
    ensures
        mesh_lists_ok(*map, cpos, r@),
{
    let mut f0: Vec<Face> = Vec::new();
    let mut f1: Vec<Face> = Vec::new();
    let mut f2: Vec<Face> = Vec::new();
    let mut f3: Vec<Face> = Vec::new();
    let mut f4: Vec<Face> = Vec::new();
    let mut f5: Vec<Face> = Vec::new();
    let mut idx: usize = 0;
    while idx < 32768
        invariant
            map.wf(),
            meshable(cpos),
            idx <= 32768,
            dir_list_ok(*map, cpos, f0@, 0, idx as int),
            dir_list_ok(*map, cpos, f1@, 1, idx as int),
            dir_list_ok(*map, cpos, f2@, 2, idx as int),
            dir_list_ok(*map, cpos, f3@, 3, idx as int),
            dir_list_ok(*map, cpos, f4@, 4, idx as int),
            dir_list_ok(*map, cpos, f5@, 5, idx as int),
        decreases 32768 - idx,
    {
        let x = (idx % 32) as i32;
        let y = (idx / 1024) as i32;
        let z = ((idx / 32) % 32) as i32;
        let lp = Vec3i { x, y, z };
        proof {
            assert(cell_of(idx as int) == lp);
            assert(local_in_range(lp));
        }
        mesh_axis(map, cpos, lp, 1, 0, &mut f1, &mut f0, Ghost(idx as int));
        mesh_axis(map, cpos, lp, 3, 2, &mut f3, &mut f2, Ghost(idx as int));
        mesh_axis(map, cpos, lp, 5, 4, &mut f5, &mut f4, Ghost(idx as int));
        idx += 1;
    }
    let mut r: Vec<Vec<Face>> = Vec::new();
    r.push(f0);
    r.push(f1);
    r.push(f2);
    r.push(f3);
    r.push(f4);
    r.push(f5);
    proof {
        assert forall|d: int| 0 <= d < 6 implies dir_list_ok(
            *map,
            cpos,
            (#[trigger] r@[d])@,
            d,
            32768,
        ) by {
            if d == 0 {
            } else if d == 1 {
            } else if d == 2 {
            } else if d == 3 {
            } else if d == 4 {
            } else {
            }
        }
    }
    r
}


} // verus!
