use vstd::prelude::*;
use std::sync::Arc;
use crate::block::BlockMesh;
use crate::chunk::{Chunk, ChunkPos, CHUNK_SIZE};
use crate::light::LightChunk;
use crate::meshing::{Quad, ambiant_occl, spec_ambiant_occl};

verus! {

/// The chunk-specific data that is needed to mesh it.
pub struct ChunkMeshData {
    /// The chunk to mesh
    pub chunk: Arc<Chunk>,
    /// The chunks that are adjacent to the current chunk (the value at position 9+3+1, i.e. the current chunk, doesn't matter)
    pub all_chunks: [Option<Arc<Chunk>>; 27],
    /// The light chunk of the current chunk
    pub light_chunk: Arc<LightChunk>,
    /// The light chunks that are adjacent to the current light chunk
    pub all_light_chunks: [Option<Arc<LightChunk>>; 27],
}

impl ChunkMeshData {
    /// Every chunk and light chunk present has one entry per block
    pub open spec fn wf(&self) -> bool {
        &&& self.chunk.wf()
        &&& self.light_chunk.wf()
        &&& forall|t: int| 0 <= t < 27 ==> (#[trigger] self.all_chunks@[t] matches Some(c) ==> c.wf())
        &&& forall|t: int| 0 <= t < 27 ==> (#[trigger] self.all_light_chunks@[t] matches Some(c) ==> c.wf())
    }
}

/// A rectangle of merged faces of the mesh: in direction `face`, in the plane
/// `i` of that direction, covering rows `j .. j_end` and columns `k .. k_end`
/// of the plane, all drawn like `quad`
#[derive(Debug, Clone, Copy, PartialEq, Eq, Structural)]
pub struct MeshQuad {
    pub face: usize,
    pub i: usize,
    pub j: usize,
    pub k: usize,
    pub j_end: usize,
    pub k_end: usize,
    pub quad: Quad,
}

// The chunk and its surrounding shell of blocks form a padded cube of side 34:
// padded coordinate 0 is the last block of the chunk before, 1 ..= 32 the chunk
// itself, 33 the first block of the chunk after.

/// Which of the three chunks along an axis a padded coordinate falls in
pub open spec fn pad_slot(x: int) -> int {
    if x == 0 {
        0
    } else if x == 33 {
        2
    } else {
        1
    }
}

/// The coordinate, inside its own chunk, of a padded coordinate
pub open spec fn pad_inner(x: int) -> int {
    if x == 0 {
        31
    } else if x == 33 {
        0
    } else {
        x - 1
    }
}

/// Slot of the chunk that holds a padded position (13 is the chunk to mesh)
pub open spec fn pad_chunk(x: int, y: int, z: int) -> int {
    9 * pad_slot(x) + 3 * pad_slot(y) + pad_slot(z)
}

/// A position of the padded cube
pub open spec fn in_pad(x: int, y: int, z: int) -> bool {
    0 <= x < 34 && 0 <= y < 34 && 0 <= z < 34
}

/// Index of a padded position in the flat padded storage
pub open spec fn pad_index(x: int, y: int, z: int) -> int {
    x * 1156 + y * 34 + z
}

/// The block at a padded position, if its chunk is present
pub open spec fn pad_block(d: ChunkMeshData, x: int, y: int, z: int) -> Option<u16> {
    let b = pad_inner(x) * 1024 + pad_inner(y) * 32 + pad_inner(z);
    if pad_chunk(x, y, z) == 13 {
        Some(d.chunk.data@[b])
    } else {
        match d.all_chunks@[pad_chunk(x, y, z)] {
            Some(c) => Some(c.data@[b]),
            None => None,
        }
    }
}

/// Every block that meshing looks at has a mesh
pub open spec fn blocks_have_meshes(d: ChunkMeshData, n_meshes: int) -> bool {
    forall|x: int, y: int, z: int|
        in_pad(x, y, z) ==> (#[trigger] pad_block(d, x, y, z) matches Some(b) ==> b < n_meshes)
}

/// The block at a padded position is drawn as an opaque cube; a missing chunk is empty
pub open spec fn pad_opaque(d: ChunkMeshData, meshes: Seq<BlockMesh>, x: int, y: int, z: int) -> bool {
    match pad_block(d, x, y, z) {
        Some(b) => meshes[b as int].spec_is_opaque(),
        None => false,
    }
}

/// The light level at a padded position; a missing light chunk is fully lit
pub open spec fn pad_light(d: ChunkMeshData, x: int, y: int, z: int) -> u8 {
    let b = pad_inner(x) * 1024 + pad_inner(y) * 32 + pad_inner(z);
    if pad_chunk(x, y, z) == 13 {
        d.light_chunk.light@[b]
    } else {
        match d.all_light_chunks@[pad_chunk(x, y, z)] {
            Some(c) => c.light@[b],
            None => 15,
        }
    }
}

/// The opacity of the padded cube, as a function of the position
pub open spec fn opacity_of(d: ChunkMeshData, meshes: Seq<BlockMesh>) -> spec_fn(int, int, int) -> bool {
    |x: int, y: int, z: int| pad_opaque(d, meshes, x, y, z)
}

/// The light of the padded cube, as a function of the position
pub open spec fn lighting_of(d: ChunkMeshData) -> spec_fn(int, int, int) -> u8 {
    |x: int, y: int, z: int| pad_light(d, x, y, z)
}

/// The blocks of the chunk to mesh, as a function of the position in the chunk
pub open spec fn blocks_of(d: ChunkMeshData) -> spec_fn(int, int, int) -> u16 {
    chunk_blocks(*d.chunk)
}

/// The direction a face looks at: +x, -x, +y, -y, +z, -z
pub open spec fn face_dir(s: int) -> (int, int, int) {
    if s == 0 {
        (1, 0, 0)
    } else if s == 1 {
        (-1, 0, 0)
    } else if s == 2 {
        (0, 1, 0)
    } else if s == 3 {
        (0, -1, 0)
    } else if s == 4 {
        (0, 0, 1)
    } else {
        (0, 0, -1)
    }
}

/// The first axis along a face (rows of its plane)
pub open spec fn face_row_dir(s: int) -> (int, int, int) {
    if s < 2 {
        (0, 1, 0)
    } else {
        (1, 0, 0)
    }
}

/// The second axis along a face (columns of its plane)
pub open spec fn face_col_dir(s: int) -> (int, int, int) {
    if s < 4 {
        (0, 0, 1)
    } else {
        (0, 1, 0)
    }
}

/// Whether the block in front of the face of block (x, y, z) in direction `s`,
/// moved by `a` rows and `b` columns along the face, is opaque
pub open spec fn front_opaque(m: spec_fn(int, int, int) -> bool, s: int, x: int, y: int, z: int, a: int, b: int) -> bool {
    m(
        x + 1 + face_dir(s).0 + face_row_dir(s).0 * a + face_col_dir(s).0 * b,
        y + 1 + face_dir(s).1 + face_row_dir(s).1 * a + face_col_dir(s).1 * b,
        z + 1 + face_dir(s).2 + face_row_dir(s).2 * a + face_col_dir(s).2 * b,
    )
}

/// Block (x, y, z) of the chunk shows a face in direction `s`: it is opaque and the
/// block in front of it is not
pub open spec fn cube_face(m: spec_fn(int, int, int) -> bool, s: int, x: int, y: int, z: int) -> bool {
    m(x + 1, y + 1, z + 1) && !front_opaque(m, s, x, y, z, 0, 0)
}

/// 1 for an opaque block, 0 otherwise
pub open spec fn count_of(b: bool) -> u32 {
    if b {
        1
    } else {
        0
    }
}

/// Ambient occlusion of the corner (a, b), with a and b in {-1, 1}, of a face
pub open spec fn corner_occlusion(m: spec_fn(int, int, int) -> bool, s: int, x: int, y: int, z: int, a: int, b: int) -> u32 {
    spec_ambiant_occl(
        count_of(front_opaque(m, s, x, y, z, a, b)),
        (count_of(front_opaque(m, s, x, y, z, a, 0)) + count_of(front_opaque(m, s, x, y, z, 0, b))) as u32,
    )
}

/// The data of a vertex: its face, its ambient occlusion and its light level
pub open spec fn vertex_data(s: int, occlusion: u32, light: u8) -> u32 {
    (s + occlusion * 8 + light * 32) as u32
}

/// The quad of the face of block (x, y, z) in direction `s`
pub open spec fn cube_quad(
    m: spec_fn(int, int, int) -> bool,
    lt: spec_fn(int, int, int) -> u8,
    blocks: spec_fn(int, int, int) -> u16,
    s: int,
    x: int,
    y: int,
    z: int,
) -> Quad {
    let light = lt(x + 1 + face_dir(s).0, y + 1 + face_dir(s).1, z + 1 + face_dir(s).2);
    Quad {
        v1: vertex_data(s, corner_occlusion(m, s, x, y, z, -1, -1), light),
        v2: vertex_data(s, corner_occlusion(m, s, x, y, z, -1, 1), light),
        v3: vertex_data(s, corner_occlusion(m, s, x, y, z, 1, -1), light),
        v4: vertex_data(s, corner_occlusion(m, s, x, y, z, 1, 1), light),
        block_id: blocks(x, y, z),
    }
}

/// A block position of the chunk
pub open spec fn in_chunk(x: int, y: int, z: int) -> bool {
    0 <= x < 32 && 0 <= y < 32 && 0 <= z < 32
}

/// The block at position (i, j, k) of the planes of direction `s`: plane `i` along
/// the direction, row `j` and column `k` along the face
pub open spec fn plane_pos(s: int, i: int, j: int, k: int) -> (int, int, int) {
    if s < 2 {
        (i, j, k)
    } else if s < 4 {
        (j, i, k)
    } else {
        (j, k, i)
    }
}

/// Index of the face of block (x, y, z) in direction `s` in the face storage
pub open spec fn face_index(s: int, x: int, y: int, z: int) -> int {
    ((s * 32 + x) * 32 + y) * 32 + z
}

/// The faces of direction `s`, by plane position
pub open spec fn plane_faces(m: spec_fn(int, int, int) -> bool, s: int) -> spec_fn(int, int, int) -> bool {
    |i: int, j: int, k: int| cube_face(m, s, plane_pos(s, i, j, k).0, plane_pos(s, i, j, k).1, plane_pos(s, i, j, k).2)
}

/// The quads of direction `s`, by plane position
pub open spec fn plane_quads(
    m: spec_fn(int, int, int) -> bool,
    lt: spec_fn(int, int, int) -> u8,
    blocks: spec_fn(int, int, int) -> u16,
    s: int,
) -> spec_fn(int, int, int) -> Quad {
    |i: int, j: int, k: int|
        cube_quad(m, lt, blocks, s, plane_pos(s, i, j, k).0, plane_pos(s, i, j, k).1, plane_pos(s, i, j, k).2)
}

/// Plane position (i, j, k) lies in rectangle `r`
pub open spec fn in_rect(r: MeshQuad, i: int, j: int, k: int) -> bool {
    r.i == i && r.j <= j < r.j_end && r.k <= k < r.k_end
}

/// Plane position (i, j, k) lies in one of the rectangles of `rs`
pub open spec fn covered(rs: Seq<MeshQuad>, i: int, j: int, k: int) -> bool {
    exists|m: int| 0 <= m < rs.len() && #[trigger] in_rect(rs[m], i, j, k)
}

/// A face at plane position (i, j, k) that no rectangle of `rs` covers
pub open spec fn open_face(f: spec_fn(int, int, int) -> bool, rs: Seq<MeshQuad>, i: int, j: int, k: int) -> bool {
    in_chunk(i, j, k) && f(i, j, k) && !covered(rs, i, j, k)
}

/// Plane position (a, b, c) comes before (i, j, k) in the scan of a direction
pub open spec fn scan_before(a: int, b: int, c: int, i: int, j: int, k: int) -> bool {
    a < i || (a == i && (b < j || (b == j && c < k)))
}

/// Quad `p` continues a rectangle of quad `q` along the rows
pub open spec fn joins_rows(q: Quad, p: Quad) -> bool {
    p.v1 == q.v1 && p.v2 == q.v2 && p.v1 == p.v3 && p.v2 == p.v4 && p.block_id == q.block_id
}

/// Quad `p` continues a rectangle of quad `q` along the columns
pub open spec fn joins_cols(q: Quad, p: Quad) -> bool {
    p.v1 == q.v1 && p.v3 == q.v3 && p.v1 == p.v2 && p.v3 == p.v4 && p.block_id == q.block_id
}

/// Quad `p` has the same data at its four vertices as `q`, and the same block
pub open spec fn joins_flat(q: Quad, p: Quad) -> bool {
    p.spec_is_same() && p.v1 == q.v1 && p.block_id == q.block_id
}

/// Every position of rows `j .. j_end` of column `k` of plane `i` is an open face
/// whose quad has the same data as `q` at its four vertices
pub open spec fn column_joins(
    f: spec_fn(int, int, int) -> bool,
    qs: spec_fn(int, int, int) -> Quad,
    rs: Seq<MeshQuad>,
    q: Quad,
    i: int,
    j: int,
    j_end: int,
    k: int,
) -> bool {
    &&& forall|b: int| j <= b < j_end ==> #[trigger] open_face(f, rs, i, b, k)
    &&& forall|b: int| j <= b < j_end ==> joins_flat(q, #[trigger] qs(i, b, k))
}

/// Rectangle `r` is the one that greedy meshing builds after the rectangles `rs`:
/// it starts at the first open face of the scan, grows along the rows as far as
/// the faces join, and, if its quad is flat, then along the columns as far as
/// whole columns join; a quad that only joins along the columns grows along them
pub open spec fn greedy_step(f: spec_fn(int, int, int) -> bool, qs: spec_fn(int, int, int) -> Quad, rs: Seq<MeshQuad>, r: MeshQuad) -> bool {
    let (i, j, k) = (r.i as int, r.j as int, r.k as int);
    let q = qs(i, j, k);
    &&& r.quad == q
    &&& open_face(f, rs, i, j, k)
    &&& forall|a: int, b: int, c: int| scan_before(a, b, c, i, j, k) ==> !#[trigger] open_face(f, rs, a, b, c)
    &&& if q.v1 == q.v3 && q.v2 == q.v4 {
        &&& j < r.j_end <= 32
        &&& forall|b: int| j < b < r.j_end ==> #[trigger] open_face(f, rs, i, b, k)
        &&& forall|b: int| j < b < r.j_end ==> joins_rows(q, #[trigger] qs(i, b, k))
        &&& r.j_end < 32 ==> !(open_face(f, rs, i, r.j_end as int, k) && joins_rows(q, qs(i, r.j_end as int, k)))
        &&& if q.v1 == q.v2 {
            &&& k < r.k_end <= 32
            &&& forall|c: int| k < c < r.k_end ==> #[trigger] column_joins(f, qs, rs, q, i, j, r.j_end as int, c)
            &&& r.k_end < 32 ==> !column_joins(f, qs, rs, q, i, j, r.j_end as int, r.k_end as int)
        } else {
            r.k_end == k + 1
        }
    } else if q.v1 == q.v2 && q.v3 == q.v4 {
        &&& r.j_end == j + 1
        &&& k < r.k_end <= 32
        &&& forall|c: int| k < c < r.k_end ==> #[trigger] open_face(f, rs, i, j, c)
        &&& forall|c: int| k < c < r.k_end ==> joins_cols(q, #[trigger] qs(i, j, c))
        &&& r.k_end < 32 ==> !(open_face(f, rs, i, j, r.k_end as int) && joins_cols(q, qs(i, j, r.k_end as int)))
    } else {
        r.j_end == j + 1 && r.k_end == k + 1
    }
}

/// The rectangles that greedy meshing builds for direction `s`, in order: each
/// one as `greedy_step` says after the ones before it, until no open face is left
pub open spec fn greedy_rects(f: spec_fn(int, int, int) -> bool, qs: spec_fn(int, int, int) -> Quad, s: int, rs: Seq<MeshQuad>) -> bool {
    &&& forall|n: int| 0 <= n < rs.len() ==> (#[trigger] rs[n]).face == s && greedy_step(f, qs, rs.take(n), rs[n])
    &&& forall|a: int, b: int, c: int| !#[trigger] open_face(f, rs, a, b, c)
}

/// Order of the vertices of the two triangles of a quad, when the diagonal goes
/// from the first to the fourth vertex
pub open spec fn first_order(s: int, kk: int) -> int {
    seq![
        seq![0int, 2, 1, 1, 2, 3],
        seq![0int, 1, 2, 1, 3, 2],
        seq![0int, 1, 2, 1, 3, 2],
        seq![0int, 2, 1, 1, 2, 3],
        seq![3int, 1, 2, 2, 1, 0],
        seq![3int, 2, 1, 2, 0, 1],
    ][s][kk]
}

/// Order of the vertices of the two triangles of a quad, when the diagonal goes
/// from the second to the third vertex
pub open spec fn second_order(s: int, kk: int) -> int {
    seq![
        seq![0int, 2, 3, 0, 3, 1],
        seq![0int, 3, 2, 0, 1, 3],
        seq![0int, 3, 2, 0, 1, 3],
        seq![0int, 2, 3, 0, 3, 1],
        seq![1int, 0, 3, 2, 3, 0],
        seq![1int, 3, 0, 2, 0, 3],
    ][s][kk]
}

/// The ambient occlusion stored in the data of a vertex
pub open spec fn shade(v: u32) -> u32 {
    (v >> 3u32) & 3u32
}

/// Vertex `kk` of the two triangles of a rectangle: the diagonal joins the two
/// corners of least occlusion in total
pub open spec fn triangle_vertex(r: MeshQuad, kk: int) -> int {
    if shade(r.quad.v1) + shade(r.quad.v4) < shade(r.quad.v2) + shade(r.quad.v3) {
        first_order(r.face as int, kk)
    } else {
        second_order(r.face as int, kk)
    }
}

/// The triangle indices of a list of rectangles, four vertices per rectangle
pub open spec fn mesh_indices(rs: Seq<MeshQuad>) -> Seq<u32> {
    Seq::new(6 * rs.len(), |m: int| (4 * (m / 6) + triangle_vertex(rs[m / 6], m % 6)) as u32)
}

/// Index, in the face storage, of plane position (i, j, k) of direction `s`
pub open spec fn plane_index(s: int, i: int, j: int, k: int) -> int {
    face_index(s, plane_pos(s, i, j, k).0, plane_pos(s, i, j, k).1, plane_pos(s, i, j, k).2)
}

/// The faces of direction `s` still to mesh are the open faces of `rs` that are
/// not `taken` by the rectangle being built
pub open spec fn pending_faces(
    tm: Seq<bool>,
    s: int,
    f: spec_fn(int, int, int) -> bool,
    rs: Seq<MeshQuad>,
    taken: spec_fn(int, int, int) -> bool,
) -> bool {
    &&& tm.len() == 196608
    &&& forall|a: int, b: int, c: int|
        #![trigger tm[plane_index(s, a, b, c)]]
        in_chunk(a, b, c) ==> tm[plane_index(s, a, b, c)] == (open_face(f, rs, a, b, c) && !taken(a, b, c))
}

/// All the faces of direction `s` are still to mesh
pub open spec fn fresh_faces(tm: Seq<bool>, s: int, f: spec_fn(int, int, int) -> bool) -> bool {
    pending_faces(tm, s, f, Seq::empty(), |a: int, b: int, c: int| false)
}

/// The storage outside the faces of direction `s` is as it was
pub open spec fn other_faces_kept(tm: Seq<bool>, tm0: Seq<bool>, s: int) -> bool {
    &&& tm.len() == tm0.len()
    &&& forall|n: int| 0 <= n < tm.len() && (n < s * 32768 || n >= (s + 1) * 32768) ==> #[trigger] tm[n] == tm0[n]
}

/// The stored quads of direction `s` are those of its faces
pub open spec fn quads_stored(qv: Seq<Quad>, s: int, f: spec_fn(int, int, int) -> bool, qs: spec_fn(int, int, int) -> Quad) -> bool {
    &&& qv.len() == 196608
    &&& forall|a: int, b: int, c: int|
        #![trigger qv[plane_index(s, a, b, c)]]
        in_chunk(a, b, c) && f(a, b, c) ==> qv[plane_index(s, a, b, c)] == qs(a, b, c)
}

/// Plane positions of a direction have distinct indices within the direction's
/// share of the face storage
pub proof fn lemma_plane_index(s: int, a: int, b: int, c: int, a2: int, b2: int, c2: int)
    requires
        0 <= s < 6,
        in_chunk(a, b, c),
        in_chunk(a2, b2, c2),
    ensures
        s * 32768 <= plane_index(s, a, b, c) < (s + 1) * 32768,
        plane_index(s, a, b, c) == plane_index(s, a2, b2, c2) <==> (a == a2 && b == b2 && c == c2),
{
    let (x, y, z) = plane_pos(s, a, b, c);
    let (x2, y2, z2) = plane_pos(s, a2, b2, c2);
    assert(in_chunk(x, y, z) && in_chunk(x2, y2, z2));
    lemma_face_index(s, x, y, z);
    lemma_face_index(s, x2, y2, z2);
    lemma_block_offset_injective(x, y, z, x2, y2, z2);
}

/// The flat index of a face
proof fn lemma_face_index(s: int, x: int, y: int, z: int)
    requires
        0 <= s < 6,
        in_chunk(x, y, z),
    ensures
        face_index(s, x, y, z) == s * 32768 + x * 1024 + y * 32 + z,
        s * 32768 <= face_index(s, x, y, z) < (s + 1) * 32768,
{
    assert(face_index(s, x, y, z) == s * 32768 + x * 1024 + y * 32 + z) by (nonlinear_arith);
    assert(s * 32768 + 32768 == (s + 1) * 32768) by (nonlinear_arith);
}

/// Distinct blocks of a chunk have distinct offsets
proof fn lemma_block_offset_injective(x: int, y: int, z: int, x2: int, y2: int, z2: int)
    requires
        in_chunk(x, y, z),
        in_chunk(x2, y2, z2),
    ensures
        (x * 1024 + y * 32 + z == x2 * 1024 + y2 * 32 + z2) <==> (x == x2 && y == y2 && z == z2),
        0 <= x * 1024 + y * 32 + z < 32768,
{
}

/// Adding a rectangle covers what it covered and the positions of the rectangle
proof fn lemma_covered_push(rs: Seq<MeshQuad>, r: MeshQuad, a: int, b: int, c: int)
    ensures
        covered(rs.push(r), a, b, c) == (covered(rs, a, b, c) || in_rect(r, a, b, c)),
        rs.push(r).take(rs.len() as int) == rs,
{
    let rs2 = rs.push(r);
    if covered(rs, a, b, c) {
        let m = choose|m: int| 0 <= m < rs.len() && #[trigger] in_rect(rs[m], a, b, c);
        assert(rs2[m] == rs[m]);
    }
    if in_rect(r, a, b, c) {
        assert(rs2[rs.len() as int] == r);
    }
    if covered(rs2, a, b, c) {
        let m = choose|m: int| 0 <= m < rs2.len() && #[trigger] in_rect(rs2[m], a, b, c);
        if m < rs.len() {
            assert(rs2[m] == rs[m]);
        }
    }
    assert(rs2.take(rs.len() as int) =~= rs);
}

/// The plane position (i, j, k) of direction `s` as a block position
fn ijk_to_pos(s: usize, i: usize, j: usize, k: usize) -> (p: (usize, usize, usize))
    requires
        s < 6,
    ensures
        p.0 == plane_pos(s as int, i as int, j as int, k as int).0,
        p.1 == plane_pos(s as int, i as int, j as int, k as int).1,
        p.2 == plane_pos(s as int, i as int, j as int, k as int).2,
{
    if s < 2 {
        (i, j, k)
    } else if s < 4 {
        (j, i, k)
    } else {
        (j, k, i)
    }
}

/// Index of the face of block (x, y, z) in direction `s` in the face storage
fn ind_mesh(s: usize, x: usize, y: usize, z: usize) -> (n: usize)
    requires
        s < 6 && x < 32 && y < 32 && z < 32,
    ensures
        n == face_index(s as int, x as int, y as int, z as int),
        n < 196608,
{
    ((s * 32 + x) * 32 + y) * 32 + z
}

/// Index of plane position (i, j, k) of direction `s` in the face storage
fn plane_ind(s: usize, i: usize, j: usize, k: usize) -> (n: usize)
    requires
        s < 6 && i < 32 && j < 32 && k < 32,
    ensures
        n == plane_index(s as int, i as int, j as int, k as int),
        s * 32768 <= n < (s + 1) * 32768,
{
    let (x, y, z) = ijk_to_pos(s, i, j, k);
    proof {
        lemma_plane_index(s as int, i as int, j as int, k as int, i as int, j as int, k as int);
    }
    ind_mesh(s, x, y, z)
}

/// Grow the rectangle started at (i, j, k) along the rows while the next face is
/// still to mesh and joins the quad `q`; returns the end row
fn grow_rows(
    s: usize,
    i: usize,
    j: usize,
    k: usize,
    q: Quad,
    quads: &Vec<Quad>,
    to_mesh: &mut Vec<bool>,
    Ghost(f): Ghost<spec_fn(int, int, int) -> bool>,
    Ghost(qs): Ghost<spec_fn(int, int, int) -> Quad>,
    Ghost(rs): Ghost<Seq<MeshQuad>>,
) -> (j_end: usize)
    requires
        s < 6 && i < 32 && j < 32 && k < 32,
        pending_faces(old(to_mesh)@, s as int, f, rs, |a: int, b: int, c: int| a == i && b == j && c == k),
        quads_stored(quads@, s as int, f, qs),
    ensures
        j < j_end <= 32,
        forall|b: int| j < b < j_end ==> #[trigger] open_face(f, rs, i as int, b, k as int),
        forall|b: int| j < b < j_end ==> joins_rows(q, #[trigger] qs(i as int, b, k as int)),
        j_end < 32 ==> !(open_face(f, rs, i as int, j_end as int, k as int) && joins_rows(q, qs(i as int, j_end as int, k as int))),
        pending_faces(final(to_mesh)@, s as int, f, rs, |a: int, b: int, c: int| a == i && j <= b < j_end && c == k),
        other_faces_kept(final(to_mesh)@, old(to_mesh)@, s as int),
{
    let ghost tm0 = to_mesh@;
    let mut j2 = j + 1;
    while j2 < 32 && to_mesh[plane_ind(s, i, j2, k)]
        invariant
            s < 6 && i < 32 && j < 32 && k < 32,
            j < j2 <= 32,
            quads_stored(quads@, s as int, f, qs),
            forall|b: int| j < b < j2 ==> #[trigger] open_face(f, rs, i as int, b, k as int),
            forall|b: int| j < b < j2 ==> joins_rows(q, #[trigger] qs(i as int, b, k as int)),
            pending_faces(to_mesh@, s as int, f, rs, |a: int, b: int, c: int| a == i && j <= b < j2 && c == k),
            other_faces_kept(to_mesh@, tm0, s as int),
        ensures
            j < j2 <= 32,
            forall|b: int| j < b < j2 ==> #[trigger] open_face(f, rs, i as int, b, k as int),
            forall|b: int| j < b < j2 ==> joins_rows(q, #[trigger] qs(i as int, b, k as int)),
            j2 < 32 ==> !(open_face(f, rs, i as int, j2 as int, k as int) && joins_rows(q, qs(i as int, j2 as int, k as int))),
            pending_faces(to_mesh@, s as int, f, rs, |a: int, b: int, c: int| a == i && j <= b < j2 && c == k),
            other_faces_kept(to_mesh@, tm0, s as int),
        decreases 32 - j2,
    {
        let n = plane_ind(s, i, j2, k);
        let next_quad = quads[n];
        assert(to_mesh@[plane_index(s as int, i as int, j2 as int, k as int)]);
        assert(next_quad == qs(i as int, j2 as int, k as int));
        if next_quad.v1 == q.v1 && next_quad.v2 == q.v2 && next_quad.v1 == next_quad.v3 && next_quad.v2 == next_quad.v4
            && q.block_id == next_quad.block_id {
            let ghost tm1 = to_mesh@;
            to_mesh.set(n, false);
            proof {
                assert forall|a: int, b: int, c: int|
                    #![trigger to_mesh@[plane_index(s as int, a, b, c)]]
                    in_chunk(a, b, c) implies to_mesh@[plane_index(s as int, a, b, c)] == (open_face(f, rs, a, b, c) && !(a == i
                        && j <= b < j2 + 1 && c == k)) by {
                    lemma_plane_index(s as int, a, b, c, i as int, j2 as int, k as int);
                    assert(tm1[plane_index(s as int, a, b, c)] == (open_face(f, rs, a, b, c) && !(a == i && j <= b < j2 && c == k)));
                }
                assert forall|x: int| 0 <= x < to_mesh@.len() && (x < s * 32768 || x >= (s + 1) * 32768) implies #[trigger] to_mesh@[x]
                    == tm0[x] by {
                    assert(tm1[x] == tm0[x]);
                }
            }
            j2 = j2 + 1;
        } else {
            break;
        }
    }
    j2
}

/// Grow the rectangle of rows `j .. j_end` started at column `k` of plane `i`
/// along the columns while a whole column of faces is still to mesh and has the
/// flat quad `q`; returns the end column
fn grow_flat(
    s: usize,
    i: usize,
    j: usize,
    j_end: usize,
    k: usize,
    q: Quad,
    quads: &Vec<Quad>,
    to_mesh: &mut Vec<bool>,
    Ghost(f): Ghost<spec_fn(int, int, int) -> bool>,
    Ghost(qs): Ghost<spec_fn(int, int, int) -> Quad>,
    Ghost(rs): Ghost<Seq<MeshQuad>>,
) -> (k_end: usize)
    requires
        s < 6 && i < 32 && j < j_end <= 32 && k < 32,
        pending_faces(old(to_mesh)@, s as int, f, rs, |a: int, b: int, c: int| a == i && j <= b < j_end && c == k),
        quads_stored(quads@, s as int, f, qs),
    ensures
        k < k_end <= 32,
        forall|c: int| k < c < k_end ==> #[trigger] column_joins(f, qs, rs, q, i as int, j as int, j_end as int, c),
        k_end < 32 ==> !column_joins(f, qs, rs, q, i as int, j as int, j_end as int, k_end as int),
        pending_faces(final(to_mesh)@, s as int, f, rs, |a: int, b: int, c: int| a == i && j <= b < j_end && k <= c < k_end),
        other_faces_kept(final(to_mesh)@, old(to_mesh)@, s as int),
{
    let ghost tm0 = to_mesh@;
    let mut k2 = k + 1;
    while k2 < 32
        invariant
            s < 6 && i < 32 && j < j_end <= 32 && k < 32,
            k < k2 <= 32,
            quads_stored(quads@, s as int, f, qs),
            forall|c: int| k < c < k2 ==> #[trigger] column_joins(f, qs, rs, q, i as int, j as int, j_end as int, c),
            pending_faces(to_mesh@, s as int, f, rs, |a: int, b: int, c: int| a == i && j <= b < j_end && k <= c < k2),
            other_faces_kept(to_mesh@, tm0, s as int),
        ensures
            k < k2 <= 32,
            forall|c: int| k < c < k2 ==> #[trigger] column_joins(f, qs, rs, q, i as int, j as int, j_end as int, c),
            k2 < 32 ==> !column_joins(f, qs, rs, q, i as int, j as int, j_end as int, k2 as int),
            pending_faces(to_mesh@, s as int, f, rs, |a: int, b: int, c: int| a == i && j <= b < j_end && k <= c < k2),
            other_faces_kept(to_mesh@, tm0, s as int),
        decreases 32 - k2,
    {
        let mut column_ok = true;
        let mut j3 = j;
        while column_ok && j3 < j_end
            invariant
                s < 6 && i < 32 && j < j_end <= 32 && k < k2 < 32,
                j <= j3 <= j_end,
                quads_stored(quads@, s as int, f, qs),
                pending_faces(to_mesh@, s as int, f, rs, |a: int, b: int, c: int| a == i && j <= b < j_end && k <= c < k2),
                forall|b: int| j <= b < j3 ==> #[trigger] open_face(f, rs, i as int, b, k2 as int),
                forall|b: int| j <= b < j3 ==> joins_flat(q, #[trigger] qs(i as int, b, k2 as int)),
                !column_ok ==> j3 < j_end && !(open_face(f, rs, i as int, j3 as int, k2 as int) && joins_flat(q, qs(i as int, j3 as int, k2 as int))),
            decreases j_end - j3, if column_ok { 1int } else { 0int },
        {
            let n = plane_ind(s, i, j3, k2);
            let next_quad = quads[n];
            proof {
                assert(to_mesh@[plane_index(s as int, i as int, j3 as int, k2 as int)] == open_face(f, rs, i as int, j3 as int, k2 as int));
            }
            if !(to_mesh[n] && next_quad.is_same() && next_quad.v1 == q.v1 && next_quad.block_id == q.block_id) {
                column_ok = false;
            } else {
                assert(next_quad == qs(i as int, j3 as int, k2 as int));
                j3 = j3 + 1;
            }
        }
        if !column_ok {
            break;
        }
        let mut j3 = j;
        while j3 < j_end
            invariant
                s < 6 && i < 32 && j < j_end <= 32 && k < k2 < 32,
                j <= j3 <= j_end,
                forall|b: int| j <= b < j_end ==> #[trigger] open_face(f, rs, i as int, b, k2 as int),
                pending_faces(to_mesh@, s as int, f, rs, |a: int, b: int, c: int| a == i && ((j <= b < j_end && k <= c < k2) || (j <= b < j3 && c == k2))),
                other_faces_kept(to_mesh@, tm0, s as int),
            decreases j_end - j3,
        {
            let n = plane_ind(s, i, j3, k2);
            let ghost tm1 = to_mesh@;
            to_mesh.set(n, false);
            proof {
                assert forall|a: int, b: int, c: int|
                    #![trigger to_mesh@[plane_index(s as int, a, b, c)]]
                    in_chunk(a, b, c) implies to_mesh@[plane_index(s as int, a, b, c)] == (open_face(f, rs, a, b, c) && !(a == i
                        && ((j <= b < j_end && k <= c < k2) || (j <= b < j3 + 1 && c == k2)))) by {
                    lemma_plane_index(s as int, a, b, c, i as int, j3 as int, k2 as int);
                    assert(tm1[plane_index(s as int, a, b, c)] == (open_face(f, rs, a, b, c) && !(a == i && ((j <= b < j_end && k <= c
                        < k2) || (j <= b < j3 && c == k2)))));
                }
                assert forall|x: int| 0 <= x < to_mesh@.len() && (x < s * 32768 || x >= (s + 1) * 32768) implies #[trigger] to_mesh@[x]
                    == tm0[x] by {
                    assert(tm1[x] == tm0[x]);
                }
            }
            j3 = j3 + 1;
        }
        proof {
            assert(column_joins(f, qs, rs, q, i as int, j as int, j_end as int, k2 as int));
            assert forall|a: int, b: int, c: int|
                #![trigger to_mesh@[plane_index(s as int, a, b, c)]]
                in_chunk(a, b, c) implies to_mesh@[plane_index(s as int, a, b, c)] == (open_face(f, rs, a, b, c) && !(a == i && j
                    <= b < j_end && k <= c < k2 + 1)) by {
                assert(((j <= b < j_end && k <= c < k2) || (j <= b < j_end && c == k2)) == (j <= b < j_end && k <= c < k2 + 1));
            }
        }
        k2 = k2 + 1;
    }
    k2
}

/// Grow the one-row rectangle started at (i, j, k) along the columns while the
/// next face is still to mesh and joins the quad `q`; returns the end column
fn grow_columns(
    s: usize,
    i: usize,
    j: usize,
    k: usize,
    q: Quad,
    quads: &Vec<Quad>,
    to_mesh: &mut Vec<bool>,
    Ghost(f): Ghost<spec_fn(int, int, int) -> bool>,
    Ghost(qs): Ghost<spec_fn(int, int, int) -> Quad>,
    Ghost(rs): Ghost<Seq<MeshQuad>>,
) -> (k_end: usize)
    requires
        s < 6 && i < 32 && j < 32 && k < 32,
        pending_faces(old(to_mesh)@, s as int, f, rs, |a: int, b: int, c: int| a == i && b == j && c == k),
        quads_stored(quads@, s as int, f, qs),
    ensures
        k < k_end <= 32,
        forall|c: int| k < c < k_end ==> #[trigger] open_face(f, rs, i as int, j as int, c),
        forall|c: int| k < c < k_end ==> joins_cols(q, #[trigger] qs(i as int, j as int, c)),
        k_end < 32 ==> !(open_face(f, rs, i as int, j as int, k_end as int) && joins_cols(q, qs(i as int, j as int, k_end as int))),
        pending_faces(final(to_mesh)@, s as int, f, rs, |a: int, b: int, c: int| a == i && b == j && k <= c < k_end),
        other_faces_kept(final(to_mesh)@, old(to_mesh)@, s as int),
{
    let ghost tm0 = to_mesh@;
    let mut k2 = k + 1;
    while k2 < 32
        invariant
            s < 6 && i < 32 && j < 32 && k < 32,
            k < k2 <= 32,
            quads_stored(quads@, s as int, f, qs),
            forall|c: int| k < c < k2 ==> #[trigger] open_face(f, rs, i as int, j as int, c),
            forall|c: int| k < c < k2 ==> joins_cols(q, #[trigger] qs(i as int, j as int, c)),
            pending_faces(to_mesh@, s as int, f, rs, |a: int, b: int, c: int| a == i && b == j && k <= c < k2),
            other_faces_kept(to_mesh@, tm0, s as int),
        ensures
            k < k2 <= 32,
            forall|c: int| k < c < k2 ==> #[trigger] open_face(f, rs, i as int, j as int, c),
            forall|c: int| k < c < k2 ==> joins_cols(q, #[trigger] qs(i as int, j as int, c)),
            k2 < 32 ==> !(open_face(f, rs, i as int, j as int, k2 as int) && joins_cols(q, qs(i as int, j as int, k2 as int))),
            pending_faces(to_mesh@, s as int, f, rs, |a: int, b: int, c: int| a == i && b == j && k <= c < k2),
            other_faces_kept(to_mesh@, tm0, s as int),
        decreases 32 - k2,
    {
        let n = plane_ind(s, i, j, k2);
        if !to_mesh[n] {
            break;
        }
        let next_quad = quads[n];
        assert(to_mesh@[plane_index(s as int, i as int, j as int, k2 as int)]);
        assert(next_quad == qs(i as int, j as int, k2 as int));
        if next_quad.v1 == q.v1 && next_quad.v3 == q.v3 && next_quad.v1 == next_quad.v2 && next_quad.v3 == next_quad.v4
            && next_quad.block_id == q.block_id {
            let ghost tm1 = to_mesh@;
            to_mesh.set(n, false);
            proof {
                assert forall|a: int, b: int, c: int|
                    #![trigger to_mesh@[plane_index(s as int, a, b, c)]]
                    in_chunk(a, b, c) implies to_mesh@[plane_index(s as int, a, b, c)] == (open_face(f, rs, a, b, c) && !(a == i
                        && b == j && k <= c < k2 + 1)) by {
                    lemma_plane_index(s as int, a, b, c, i as int, j as int, k2 as int);
                    assert(tm1[plane_index(s as int, a, b, c)] == (open_face(f, rs, a, b, c) && !(a == i && b == j && k <= c < k2)));
                }
                assert forall|x: int| 0 <= x < to_mesh@.len() && (x < s * 32768 || x >= (s + 1) * 32768) implies #[trigger] to_mesh@[x]
                    == tm0[x] by {
                    assert(tm1[x] == tm0[x]);
                }
            }
            k2 = k2 + 1;
        } else {
            break;
        }
    }
    k2
}

/// The triangle indices of one more rectangle follow those of the rectangles before
proof fn lemma_mesh_indices_push(rs: Seq<MeshQuad>, r: MeshQuad)
    ensures
        mesh_indices(rs.push(r)) == mesh_indices(rs) + Seq::new(6, |t: int| (4 * rs.len() + triangle_vertex(r, t)) as u32),
{
    let l = rs.len() as int;
    let a = mesh_indices(rs.push(r));
    let b = mesh_indices(rs) + Seq::new(6, |t: int| (4 * rs.len() + triangle_vertex(r, t)) as u32);
    assert forall|m: int| 0 <= m < a.len() implies a[m] == b[m] by {
        if m < 6 * l {
            assert(m / 6 < l) by (nonlinear_arith)
                requires 0 <= m < 6 * l;
            assert(rs.push(r)[m / 6] == rs[m / 6]);
        } else {
            assert(m / 6 == l && m % 6 == m - 6 * l) by (nonlinear_arith)
                requires 6 * l <= m < 6 * l + 6;
        }
    }
    assert(a =~= b);
}

/// Vertex `kk` of the triangles of a quad of direction `s` along the first diagonal
fn first_order_at(s: usize, kk: usize) -> (o: u32)
    requires
        s < 6 && kk < 6,
    ensures
        o == first_order(s as int, kk as int),
{
    let order1: [[u32; 6]; 6] = [
        [0, 2, 1, 1, 2, 3],
        [0, 1, 2, 1, 3, 2],
        [0, 1, 2, 1, 3, 2],
        [0, 2, 1, 1, 2, 3],
        [3, 1, 2, 2, 1, 0],
        [3, 2, 1, 2, 0, 1],
    ];
    order1[s][kk]
}

/// Vertex `kk` of the triangles of a quad of direction `s` along the second diagonal
fn second_order_at(s: usize, kk: usize) -> (o: u32)
    requires
        s < 6 && kk < 6,
    ensures
        o == second_order(s as int, kk as int),
{
    let order2: [[u32; 6]; 6] = [
        [0, 2, 3, 0, 3, 1],
        [0, 3, 2, 0, 1, 3],
        [0, 3, 2, 0, 1, 3],
        [0, 2, 3, 0, 3, 1],
        [1, 0, 3, 2, 3, 0],
        [1, 3, 0, 2, 0, 3],
    ];
    order2[s][kk]
}

/// Append a rectangle and the six indices of its two triangles; `n_vertex` counts
/// the four vertices of each rectangle
fn push_quad(res_quads: &mut Vec<MeshQuad>, res_index: &mut Vec<u32>, n_vertex: &mut u32, r: MeshQuad)
    requires
        old(res_index)@ == mesh_indices(old(res_quads)@),
        old(res_quads)@.len() < 196608,
        *old(n_vertex) == 4 * old(res_quads)@.len(),
        r.face < 6,
    ensures
        final(res_quads)@ == old(res_quads)@.push(r),
        final(res_index)@ == mesh_indices(final(res_quads)@),
        *final(n_vertex) == 4 * final(res_quads)@.len(),
{
    let ghost rs = res_quads@;
    let ghost idx0 = res_index@;
    let v = [r.quad.v1, r.quad.v2, r.quad.v3, r.quad.v4];
    let a00 = (v[0] >> 3) & 0x3;
    let a11 = (v[3] >> 3) & 0x3;
    let a01 = (v[1] >> 3) & 0x3;
    let a10 = (v[2] >> 3) & 0x3;
    proof {
        let (w0, w1, w2, w3) = (r.quad.v1, r.quad.v2, r.quad.v3, r.quad.v4);
        assert((w0 >> 3u32) & 3u32 <= 3u32) by (bit_vector);
        assert((w1 >> 3u32) & 3u32 <= 3u32) by (bit_vector);
        assert((w2 >> 3u32) & 3u32 <= 3u32) by (bit_vector);
        assert((w3 >> 3u32) & 3u32 <= 3u32) by (bit_vector);
    }
    let first = a00 + a11 < a01 + a10;
    assert(first == (shade(r.quad.v1) + shade(r.quad.v4) < shade(r.quad.v2) + shade(r.quad.v3)));
    let base = *n_vertex;
    let mut kk: usize = 0;
    while kk < 6
        invariant
            kk <= 6,
            r.face < 6,
            base == 4 * rs.len(),
            rs.len() < 196608,
            first == (shade(r.quad.v1) + shade(r.quad.v4) < shade(r.quad.v2) + shade(r.quad.v3)),
            res_index@ == idx0 + Seq::new(kk as nat, |t: int| (4 * rs.len() + triangle_vertex(r, t)) as u32),
        decreases 6 - kk,
    {
        let o = if first {
            first_order_at(r.face, kk)
        } else {
            second_order_at(r.face, kk)
        };
        assert(o == triangle_vertex(r, kk as int));
        res_index.push(base + o);
        proof {
            assert(res_index@ =~= idx0 + Seq::new((kk + 1) as nat, |t: int| (4 * rs.len() + triangle_vertex(r, t)) as u32));
        }
        kk = kk + 1;
    }
    res_quads.push(r);
    *n_vertex = base + 4;
    proof {
        lemma_mesh_indices_push(rs, r);
    }
}

/// State of the scan of the planes of direction `s`, at plane position
/// (i, j, k): the rectangles built so far are the greedy ones, every face before
/// the position is covered, and the faces still to mesh are the open ones
pub open spec fn scan_state(
    f: spec_fn(int, int, int) -> bool,
    qs: spec_fn(int, int, int) -> Quad,
    s: int,
    tm: Seq<bool>,
    tm0: Seq<bool>,
    rs: Seq<MeshQuad>,
    i: int,
    j: int,
    k: int,
) -> bool {
    &&& pending_faces(tm, s, f, rs, |a: int, b: int, c: int| false)
    &&& other_faces_kept(tm, tm0, s)
    &&& forall|n: int| 0 <= n < rs.len() ==> (#[trigger] rs[n]).face == s && greedy_step(f, qs, rs.take(n), rs[n])
    &&& forall|a: int, b: int, c: int| in_chunk(a, b, c) && scan_before(a, b, c, i, j, k) ==> !#[trigger] open_face(f, rs, a, b, c)
    &&& rs.len() <= i * 1024 + j * 32 + k
}

/// Merge the faces of direction `s` still to mesh into rectangles, scanning the
/// planes, then rows, then columns in order, and append the rectangles with the
/// indices of their triangles
fn merge_faces(
    s: usize,
    quads: &Vec<Quad>,
    to_mesh: &mut Vec<bool>,
    res_quads: &mut Vec<MeshQuad>,
    res_index: &mut Vec<u32>,
    n_vertex: &mut u32,
    Ghost(f): Ghost<spec_fn(int, int, int) -> bool>,
    Ghost(qs): Ghost<spec_fn(int, int, int) -> Quad>,
)
    requires
        s < 6,
        fresh_faces(old(to_mesh)@, s as int, f),
        quads_stored(quads@, s as int, f, qs),
        old(res_quads)@.len() <= s * 32768,
        old(res_index)@ == mesh_indices(old(res_quads)@),
        *old(n_vertex) == 4 * old(res_quads)@.len(),
    ensures
        exists|rs: Seq<MeshQuad>| greedy_rects(f, qs, s as int, rs) && final(res_quads)@ == old(res_quads)@ + rs,
        final(res_quads)@.len() <= (s + 1) * 32768,
        final(res_index)@ == mesh_indices(final(res_quads)@),
        *final(n_vertex) == 4 * final(res_quads)@.len(),
        other_faces_kept(final(to_mesh)@, old(to_mesh)@, s as int),
{
    let ghost out0 = res_quads@;
    let ghost tm0 = to_mesh@;
    let ghost mut rs: Seq<MeshQuad> = Seq::empty();
    let mut i: usize = 0;
    while i < 32
        invariant
            s < 6,
            i <= 32,
            quads_stored(quads@, s as int, f, qs),
            out0.len() <= s * 32768,
            scan_state(f, qs, s as int, to_mesh@, tm0, rs, i as int, 0, 0),
            res_quads@ == out0 + rs,
            res_index@ == mesh_indices(res_quads@),
            *n_vertex == 4 * res_quads@.len(),
        decreases 32 - i,
    {
        let mut j: usize = 0;
        while j < 32
            invariant
                s < 6,
                i < 32,
                j <= 32,
                quads_stored(quads@, s as int, f, qs),
                out0.len() <= s * 32768,
                scan_state(f, qs, s as int, to_mesh@, tm0, rs, i as int, j as int, 0),
                res_quads@ == out0 + rs,
                res_index@ == mesh_indices(res_quads@),
                *n_vertex == 4 * res_quads@.len(),
            decreases 32 - j,
        {
            let mut k: usize = 0;
            while k < 32
                invariant
                    s < 6,
                    i < 32,
                    j < 32,
                    k <= 32,
                    quads_stored(quads@, s as int, f, qs),
                    out0.len() <= s * 32768,
                    scan_state(f, qs, s as int, to_mesh@, tm0, rs, i as int, j as int, k as int),
                    res_quads@ == out0 + rs,
                    res_index@ == mesh_indices(res_quads@),
                    *n_vertex == 4 * res_quads@.len(),
                decreases 32 - k,
            {
                let n = plane_ind(s, i, j, k);
                if to_mesh[n] {
                    let ghost tm1 = to_mesh@;
                    to_mesh.set(n, false);
                    let current_quad = quads[n];
                    proof {
                        assert(tm1[plane_index(s as int, i as int, j as int, k as int)]);
                        assert(open_face(f, rs, i as int, j as int, k as int));
                        assert(current_quad == qs(i as int, j as int, k as int));
                        assert forall|a: int, b: int, c: int|
                            #![trigger to_mesh@[plane_index(s as int, a, b, c)]]
                            in_chunk(a, b, c) implies to_mesh@[plane_index(s as int, a, b, c)] == (open_face(f, rs, a, b, c) && !(a
                                == i && b == j && c == k)) by {
                            lemma_plane_index(s as int, a, b, c, i as int, j as int, k as int);
                            assert(tm1[plane_index(s as int, a, b, c)] == (open_face(f, rs, a, b, c) && !false));
                        }
                        assert forall|x: int| 0 <= x < to_mesh@.len() && (x < s * 32768 || x >= (s + 1) * 32768) implies #[trigger] to_mesh@[x]
                            == tm0[x] by {
                            assert(tm1[x] == tm0[x]);
                        }
                    }
                    let mut j_end = j + 1;
                    let mut k_end = k + 1;
                    if current_quad.v1 == current_quad.v3 && current_quad.v2 == current_quad.v4 {
                        j_end = grow_rows(s, i, j, k, current_quad, quads, to_mesh, Ghost(f), Ghost(qs), Ghost(rs));
                        if current_quad.v1 == current_quad.v2 {
                            k_end = grow_flat(s, i, j, j_end, k, current_quad, quads, to_mesh, Ghost(f), Ghost(qs), Ghost(rs));
                        }
                    } else if current_quad.v1 == current_quad.v2 && current_quad.v3 == current_quad.v4 {
                        k_end = grow_columns(s, i, j, k, current_quad, quads, to_mesh, Ghost(f), Ghost(qs), Ghost(rs));
                    }
                    let r = MeshQuad { face: s, i, j, k, j_end, k_end, quad: current_quad };
                    proof {
                        assert(pending_faces(to_mesh@, s as int, f, rs, |a: int, b: int, c: int| in_rect(r, a, b, c)));
                        assert(greedy_step(f, qs, rs, r));
                        lemma_mul_bound(i as int, j as int, k as int);
                    }
                    push_quad(res_quads, res_index, n_vertex, r);
                    proof {
                        let rs2 = rs.push(r);
                        assert forall|a: int, b: int, c: int| #![trigger open_face(f, rs2, a, b, c)] true implies open_face(
                            f,
                            rs2,
                            a,
                            b,
                            c,
                        ) == (open_face(f, rs, a, b, c) && !in_rect(r, a, b, c)) by {
                            lemma_covered_push(rs, r, a, b, c);
                        }
                        assert forall|n2: int| 0 <= n2 < rs2.len() implies (#[trigger] rs2[n2]).face == s && greedy_step(
                            f,
                            qs,
                            rs2.take(n2),
                            rs2[n2],
                        ) by {
                            if n2 < rs.len() {
                                assert(rs2.take(n2) =~= rs.take(n2));
                            } else {
                                assert(rs2.take(n2) =~= rs);
                            }
                        }
                        assert forall|a: int, b: int, c: int|
                            #![trigger to_mesh@[plane_index(s as int, a, b, c)]]
                            in_chunk(a, b, c) implies to_mesh@[plane_index(s as int, a, b, c)] == (open_face(f, rs2, a, b, c) && !false) by {
                            lemma_covered_push(rs, r, a, b, c);
                        }
                        assert forall|a: int, b: int, c: int| in_chunk(a, b, c) && scan_before(a, b, c, i as int, j as int, k + 1)
                            implies !#[trigger] open_face(f, rs2, a, b, c) by {
                            lemma_covered_push(rs, r, a, b, c);
                            if !(a == i && b == j && c == k) {
                                assert(scan_before(a, b, c, i as int, j as int, k as int));
                            }
                        }
                        assert(res_quads@ =~= out0 + rs2);
                        rs = rs2;
                    }
                } else {
                    proof {
                        assert(!open_face(f, rs, i as int, j as int, k as int));
                    }
                }
                k = k + 1;
            }
            j = j + 1;
        }
        i = i + 1;
    }
    proof {
        assert forall|a: int, b: int, c: int| !#[trigger] open_face(f, rs, a, b, c) by {
            if in_chunk(a, b, c) {
                assert(scan_before(a, b, c, 32, 0, 0));
            }
        }
        assert(greedy_rects(f, qs, s as int, rs));
    }
}

/// A scan position counts at most 32768 positions
proof fn lemma_mul_bound(i: int, j: int, k: int)
    requires
        0 <= i < 32 && 0 <= j < 32 && 0 <= k < 32,
    ensures
        i * 1024 + j * 32 + k + 1 <= 32768,
{
}

/// The opacity and light of the padded cube are stored in `mask` and `light`
pub open spec fn padded_stored(mask: Seq<bool>, light: Seq<u8>, m: spec_fn(int, int, int) -> bool, lt: spec_fn(int, int, int) -> u8) -> bool {
    &&& mask.len() == 39304
    &&& light.len() == 39304
    &&& forall|x: int, y: int, z: int|
        #![trigger mask[pad_index(x, y, z)]]
        in_pad(x, y, z) ==> mask[pad_index(x, y, z)] == m(x, y, z)
    &&& forall|x: int, y: int, z: int|
        #![trigger light[pad_index(x, y, z)]]
        in_pad(x, y, z) ==> light[pad_index(x, y, z)] == lt(x, y, z)
}

/// The blocks of a chunk, as a function of the position in the chunk
pub open spec fn chunk_blocks(c: Chunk) -> spec_fn(int, int, int) -> u16 {
    |x: int, y: int, z: int| c.data@[x * 1024 + y * 32 + z]
}

/// Distinct padded positions have distinct indices
pub(crate) proof fn lemma_pad_index(x: int, y: int, z: int, x2: int, y2: int, z2: int)
    requires
        in_pad(x, y, z),
        in_pad(x2, y2, z2),
    ensures
        0 <= pad_index(x, y, z) < 39304,
        pad_index(x, y, z) == pad_index(x2, y2, z2) <==> (x == x2 && y == y2 && z == z2),
{
}

/// The block in front of a face of the chunk, moved by at most one row and one
/// column along the face, lies in the padded cube
proof fn lemma_front_in_pad(s: int, x: int, y: int, z: int, a: int, b: int)
    requires
        0 <= s < 6,
        in_chunk(x, y, z),
        -1 <= a <= 1 && -1 <= b <= 1,
    ensures
        in_pad(
            x + 1 + face_dir(s).0 + face_row_dir(s).0 * a + face_col_dir(s).0 * b,
            y + 1 + face_dir(s).1 + face_row_dir(s).1 * a + face_col_dir(s).1 * b,
            z + 1 + face_dir(s).2 + face_row_dir(s).2 * a + face_col_dir(s).2 * b,
        ),
{
    lemma_unit_product(face_row_dir(s).0, a);
    lemma_unit_product(face_row_dir(s).1, a);
    lemma_unit_product(face_row_dir(s).2, a);
    lemma_unit_product(face_col_dir(s).0, b);
    lemma_unit_product(face_col_dir(s).1, b);
    lemma_unit_product(face_col_dir(s).2, b);
}

/// A product by 0 or 1
proof fn lemma_unit_product(u: int, v: int)
    requires
        0 <= u <= 1,
    ensures
        u * v == (if u == 0 { 0 } else { v }),
{
    assert(u * v == (if u == 0 { 0 } else { v })) by (nonlinear_arith)
        requires 0 <= u <= 1;
}

/// The three directions of the faces of direction `s`: the one it looks at, its
/// rows and its columns
fn face_axes(s: usize) -> (r: ((i32, i32, i32), (i32, i32, i32), (i32, i32, i32)))
    requires
        s < 6,
    ensures
        (r.0.0 as int, r.0.1 as int, r.0.2 as int) == face_dir(s as int),
        (r.1.0 as int, r.1.1 as int, r.1.2 as int) == face_row_dir(s as int),
        (r.2.0 as int, r.2.1 as int, r.2.2 as int) == face_col_dir(s as int),
{
    let d: [[i32; 3]; 6] = [[1, 0, 0], [-1, 0, 0], [0, 1, 0], [0, -1, 0], [0, 0, 1], [0, 0, -1]];
    let d_delta1: [[i32; 3]; 6] = [[0, 1, 0], [0, 1, 0], [1, 0, 0], [1, 0, 0], [1, 0, 0], [1, 0, 0]];
    let d_delta2: [[i32; 3]; 6] = [[0, 0, 1], [0, 0, 1], [0, 0, 1], [0, 0, 1], [0, 1, 0], [0, 1, 0]];
    ((d[s][0], d[s][1], d[s][2]), (d_delta1[s][0], d_delta1[s][1], d_delta1[s][2]), (d_delta2[s][0], d_delta2[s][1], d_delta2[s][2]))
}

/// Index in the padded storage of the block in front of the face of block
/// (x, y, z) in direction `s`, moved by `a` rows and `b` columns along the face
fn front_index(s: usize, x: usize, y: usize, z: usize, a: i32, b: i32) -> (n: usize)
    requires
        s < 6,
        in_chunk(x as int, y as int, z as int),
        -1 <= a <= 1 && -1 <= b <= 1,
    ensures
        n == pad_index(
            x + 1 + face_dir(s as int).0 + face_row_dir(s as int).0 * a + face_col_dir(s as int).0 * b,
            y + 1 + face_dir(s as int).1 + face_row_dir(s as int).1 * a + face_col_dir(s as int).1 * b,
            z + 1 + face_dir(s as int).2 + face_row_dir(s as int).2 * a + face_col_dir(s as int).2 * b,
        ),
        n < 39304,
{
    let (d, d1, d2) = face_axes(s);
    proof {
        lemma_front_in_pad(s as int, x as int, y as int, z as int, a as int, b as int);
        assert(-1 <= d1.0 * a <= 1 && -1 <= d1.1 * a <= 1 && -1 <= d1.2 * a <= 1) by (nonlinear_arith)
            requires 0 <= d1.0 <= 1 && 0 <= d1.1 <= 1 && 0 <= d1.2 <= 1 && -1 <= a <= 1;
        assert(-1 <= d2.0 * b <= 1 && -1 <= d2.1 * b <= 1 && -1 <= d2.2 * b <= 1) by (nonlinear_arith)
            requires 0 <= d2.0 <= 1 && 0 <= d2.1 <= 1 && 0 <= d2.2 <= 1 && -1 <= b <= 1;
    }
    let dx = 1 + d.0 + d1.0 * a + d2.0 * b;
    let dy = 1 + d.1 + d1.1 * a + d2.1 * b;
    let dz = 1 + d.2 + d1.2 * a + d2.2 * b;
    let px = (x as i32 + dx) as usize;
    let py = (y as i32 + dy) as usize;
    let pz = (z as i32 + dz) as usize;
    proof {
        lemma_pad_index(px as int, py as int, pz as int, px as int, py as int, pz as int);
    }
    px * 1156 + py * 34 + pz
}

/// Whether a padded position has been counted, scanning rows `a` then columns `b`
/// of the 3x3 square in front of a face up to (i2, j2)
pub open spec fn around_seen(i2: int, j2: int, a: int, b: int) -> bool {
    a < i2 || (a == i2 && b < j2)
}

/// 1 if the block at (a, b) of the square in front of the face is opaque and counted
pub open spec fn around_count(m: spec_fn(int, int, int) -> bool, s: int, x: int, y: int, z: int, i2: int, j2: int, a: int, b: int) -> u32 {
    if around_seen(i2, j2, a, b) {
        count_of(front_opaque(m, s, x, y, z, a, b))
    } else {
        0
    }
}

/// The quad of the face of block (x, y, z) in direction `s`: ambient occlusion of
/// each corner from the opaque blocks around the block in front of the face, and
/// the light of the block in front
fn face_quad(
    s: usize,
    x: usize,
    y: usize,
    z: usize,
    chunk_mask: &Vec<bool>,
    light_levels: &Vec<u8>,
    chunk: &Chunk,
    Ghost(m): Ghost<spec_fn(int, int, int) -> bool>,
    Ghost(lt): Ghost<spec_fn(int, int, int) -> u8>,
) -> (q: Quad)
    requires
        s < 6,
        in_chunk(x as int, y as int, z as int),
        padded_stored(chunk_mask@, light_levels@, m, lt),
        chunk.wf(),
    ensures
        q == cube_quad(m, lt, chunk_blocks(*chunk), s as int, x as int, y as int, z as int),
{
    let ghost (si, xi, yi, zi) = (s as int, x as int, y as int, z as int);
    let mut c0: u32 = 0;
    let mut c1: u32 = 0;
    let mut c2: u32 = 0;
    let mut c3: u32 = 0;
    let mut e0: u32 = 0;
    let mut e1: u32 = 0;
    let mut e2: u32 = 0;
    let mut e3: u32 = 0;
    let mut i2: i32 = -1;
    while i2 <= 1
        invariant
            s < 6,
            in_chunk(x as int, y as int, z as int),
            padded_stored(chunk_mask@, light_levels@, m, lt),
            -1 <= i2 <= 2,
            si == s as int && xi == x as int && yi == y as int && zi == z as int,
            c0 == around_count(m, si, xi, yi, zi, i2 as int, -1, -1, -1),
            c1 == around_count(m, si, xi, yi, zi, i2 as int, -1, -1, 1),
            c2 == around_count(m, si, xi, yi, zi, i2 as int, -1, 1, -1),
            c3 == around_count(m, si, xi, yi, zi, i2 as int, -1, 1, 1),
            e0 == around_count(m, si, xi, yi, zi, i2 as int, -1, -1, 0) + around_count(m, si, xi, yi, zi, i2 as int, -1, 0, -1),
            e1 == around_count(m, si, xi, yi, zi, i2 as int, -1, -1, 0) + around_count(m, si, xi, yi, zi, i2 as int, -1, 0, 1),
            e2 == around_count(m, si, xi, yi, zi, i2 as int, -1, 1, 0) + around_count(m, si, xi, yi, zi, i2 as int, -1, 0, -1),
            e3 == around_count(m, si, xi, yi, zi, i2 as int, -1, 1, 0) + around_count(m, si, xi, yi, zi, i2 as int, -1, 0, 1),
        decreases 2 - i2,
    {
        let mut j2: i32 = -1;
        while j2 <= 1
            invariant
                s < 6,
                in_chunk(x as int, y as int, z as int),
                padded_stored(chunk_mask@, light_levels@, m, lt),
                -1 <= i2 <= 1,
                -1 <= j2 <= 2,
                si == s as int && xi == x as int && yi == y as int && zi == z as int,
                c0 == around_count(m, si, xi, yi, zi, i2 as int, j2 as int, -1, -1),
                c1 == around_count(m, si, xi, yi, zi, i2 as int, j2 as int, -1, 1),
                c2 == around_count(m, si, xi, yi, zi, i2 as int, j2 as int, 1, -1),
                c3 == around_count(m, si, xi, yi, zi, i2 as int, j2 as int, 1, 1),
                e0 == around_count(m, si, xi, yi, zi, i2 as int, j2 as int, -1, 0) + around_count(m, si, xi, yi, zi, i2 as int, j2 as int, 0, -1),
                e1 == around_count(m, si, xi, yi, zi, i2 as int, j2 as int, -1, 0) + around_count(m, si, xi, yi, zi, i2 as int, j2 as int, 0, 1),
                e2 == around_count(m, si, xi, yi, zi, i2 as int, j2 as int, 1, 0) + around_count(m, si, xi, yi, zi, i2 as int, j2 as int, 0, -1),
                e3 == around_count(m, si, xi, yi, zi, i2 as int, j2 as int, 1, 0) + around_count(m, si, xi, yi, zi, i2 as int, j2 as int, 0, 1),
            decreases 2 - j2,
        {
            let n = front_index(s, x, y, z, i2, j2);
            proof {
                lemma_front_in_pad(si, xi, yi, zi, i2 as int, j2 as int);
            }
            if chunk_mask[n] {
                match (i2, j2) {
                    (-1, -1) => {
                        c0 += 1;
                    },
                    (-1, 1) => {
                        c1 += 1;
                    },
                    (1, -1) => {
                        c2 += 1;
                    },
                    (1, 1) => {
                        c3 += 1;
                    },
                    (-1, 0) => {
                        e0 += 1;
                        e1 += 1;
                    },
                    (1, 0) => {
                        e2 += 1;
                        e3 += 1;
                    },
                    (0, -1) => {
                        e0 += 1;
                        e2 += 1;
                    },
                    (0, 1) => {
                        e1 += 1;
                        e3 += 1;
                    },
                    _ => {},
                }
            }
            j2 += 1;
        }
        i2 += 1;
    }
    let light_level = light_levels[front_index(s, x, y, z, 0, 0)];
    proof {
        lemma_front_in_pad(si, xi, yi, zi, 0, 0);
    }
    let a0 = ambiant_occl(c0, e0);
    let a1 = ambiant_occl(c1, e1);
    let a2 = ambiant_occl(c2, e2);
    let a3 = ambiant_occl(c3, e3);
    let l = light_level as u32;
    proof {
        assert(a0 << 3u32 == a0 * 8) by (bit_vector)
            requires a0 <= 3;
        assert(a1 << 3u32 == a1 * 8) by (bit_vector)
            requires a1 <= 3;
        assert(a2 << 3u32 == a2 * 8) by (bit_vector)
            requires a2 <= 3;
        assert(a3 << 3u32 == a3 * 8) by (bit_vector)
            requires a3 <= 3;
        assert(l << 5u32 == l * 32) by (bit_vector)
            requires l <= 255;
    }
    Quad {
        v1: (s as u32) + (a0 << 3) + (l << 5),
        v2: (s as u32) + (a1 << 3) + (l << 5),
        v3: (s as u32) + (a2 << 3) + (l << 5),
        v4: (s as u32) + (a3 << 3) + (l << 5),
        block_id: chunk.get_block_at((x as u32, y as u32, z as u32)),
    }
}

/// The faces of direction `s` of the chunk
pub open spec fn face_set(m: spec_fn(int, int, int) -> bool, s: int) -> Set<(int, int, int)> {
    Set::new(|p: (int, int, int)| in_chunk(p.0, p.1, p.2) && cube_face(m, s, p.0, p.1, p.2))
}

/// Number of faces of the directions before `n`
pub open spec fn faces_before(m: spec_fn(int, int, int) -> bool, n: int) -> int
    decreases n,
{
    if n <= 0 {
        0
    } else {
        faces_before(m, n - 1) + face_set(m, n - 1).len()
    }
}

/// The stored quads of direction `s` are those of its faces, and the rest of
/// the storage is as in `q0`
pub open spec fn faces_stored(
    qv: Seq<Quad>,
    q0: Seq<Quad>,
    m: spec_fn(int, int, int) -> bool,
    lt: spec_fn(int, int, int) -> u8,
    blocks: spec_fn(int, int, int) -> u16,
    s: int,
) -> bool {
    &&& qv.len() == q0.len()
    &&& forall|x: int, y: int, z: int|
        #![trigger qv[face_index(s, x, y, z)]]
        in_chunk(x, y, z) ==> qv[face_index(s, x, y, z)] == (if cube_face(m, s, x, y, z) {
            cube_quad(m, lt, blocks, s, x, y, z)
        } else {
            q0[face_index(s, x, y, z)]
        })
    &&& forall|n: int| 0 <= n < qv.len() && (n < s * 32768 || n >= (s + 1) * 32768) ==> #[trigger] qv[n] == q0[n]
}

/// Block (x, y, z) comes before block (i0, j0, k0) in the scan for faces: by
/// layer y, then x, then z
pub open spec fn face_visited(j0: int, i0: int, k0: int, x: int, y: int, z: int) -> bool {
    y < j0 || (y == j0 && (x < i0 || (x == i0 && z < k0)))
}

/// State of the scan for faces of direction `s` before block (i0, j0, k0): the
/// faces of the blocks visited are marked and their quads stored, the faces found
/// are counted
pub open spec fn face_scan(
    tm: Seq<bool>,
    tm0: Seq<bool>,
    qv: Seq<Quad>,
    q0: Seq<Quad>,
    m: spec_fn(int, int, int) -> bool,
    lt: spec_fn(int, int, int) -> u8,
    blocks: spec_fn(int, int, int) -> u16,
    s: int,
    found: Set<(int, int, int)>,
    count: int,
    j0: int,
    i0: int,
    k0: int,
) -> bool {
    &&& forall|x: int, y: int, z: int|
        #![trigger tm[face_index(s, x, y, z)]]
        in_chunk(x, y, z) ==> tm[face_index(s, x, y, z)] == (face_visited(j0, i0, k0, x, y, z) && cube_face(m, s, x, y, z))
    &&& other_faces_kept(tm, tm0, s)
    &&& qv.len() == q0.len()
    &&& forall|x: int, y: int, z: int|
        #![trigger qv[face_index(s, x, y, z)]]
        in_chunk(x, y, z) ==> qv[face_index(s, x, y, z)] == (if face_visited(j0, i0, k0, x, y, z) && cube_face(m, s, x, y, z) {
            cube_quad(m, lt, blocks, s, x, y, z)
        } else {
            q0[face_index(s, x, y, z)]
        })
    &&& forall|n: int| 0 <= n < qv.len() && (n < s * 32768 || n >= (s + 1) * 32768) ==> #[trigger] qv[n] == q0[n]
    &&& forall|p: (int, int, int)|
        #[trigger] found.contains(p) <==> (in_chunk(p.0, p.1, p.2) && face_visited(j0, i0, k0, p.0, p.1, p.2) && cube_face(
            m,
            s,
            p.0,
            p.1,
            p.2,
        ))
    &&& found.finite()
    &&& count == found.len()
    &&& count <= j0 * 1024 + i0 * 32 + k0
}

/// Find the faces of direction `s`: each opaque block of the chunk whose
/// neighbour in that direction is not opaque gets its quad stored and is marked
/// to mesh; returns the number of faces
fn build_faces(
    s: usize,
    chunk_mask: &Vec<bool>,
    light_levels: &Vec<u8>,
    chunk: &Chunk,
    quads: &mut Vec<Quad>,
    to_mesh: &mut Vec<bool>,
    Ghost(m): Ghost<spec_fn(int, int, int) -> bool>,
    Ghost(lt): Ghost<spec_fn(int, int, int) -> u8>,
) -> (faces: u32)
    requires
        s < 6,
        padded_stored(chunk_mask@, light_levels@, m, lt),
        chunk.wf(),
        old(quads)@.len() == 196608,
        old(to_mesh)@.len() == 196608,
        forall|x: int, y: int, z: int| in_chunk(x, y, z) ==> !old(to_mesh)@[#[trigger] face_index(s as int, x, y, z)],
    ensures
        forall|x: int, y: int, z: int|
            #![trigger final(to_mesh)@[face_index(s as int, x, y, z)]]
            in_chunk(x, y, z) ==> final(to_mesh)@[face_index(s as int, x, y, z)] == cube_face(m, s as int, x, y, z),
        other_faces_kept(final(to_mesh)@, old(to_mesh)@, s as int),
        faces_stored(final(quads)@, old(quads)@, m, lt, chunk_blocks(*chunk), s as int),
        face_set(m, s as int).finite(),
        faces == face_set(m, s as int).len(),
        faces <= 32768,
{
    let ghost tm0 = to_mesh@;
    let ghost q0 = quads@;
    let ghost blocks = chunk_blocks(*chunk);
    let ghost mut found: Set<(int, int, int)> = Set::empty();
    let mut tot: u32 = 0;
    proof {
        assert forall|x: int, y: int, z: int| #![trigger to_mesh@[face_index(s as int, x, y, z)]] in_chunk(x, y, z) implies to_mesh@[face_index(
            s as int,
            x,
            y,
            z,
        )] == (face_visited(0, 0, 0, x, y, z) && cube_face(m, s as int, x, y, z)) by {
            assert(!tm0[face_index(s as int, x, y, z)]);
        }
    }
    let mut j: usize = 0;
    while j < 32
        invariant
            s < 6,
            j <= 32,
            padded_stored(chunk_mask@, light_levels@, m, lt),
            chunk.wf(),
            blocks == chunk_blocks(*chunk),
            to_mesh@.len() == 196608,
            quads@.len() == 196608,
            face_scan(to_mesh@, tm0, quads@, q0, m, lt, blocks, s as int, found, tot as int, j as int, 0, 0),
        decreases 32 - j,
    {
        let mut i: usize = 0;
        while i < 32
            invariant
                s < 6,
                j < 32,
                i <= 32,
                padded_stored(chunk_mask@, light_levels@, m, lt),
                chunk.wf(),
                blocks == chunk_blocks(*chunk),
                to_mesh@.len() == 196608,
                quads@.len() == 196608,
                face_scan(to_mesh@, tm0, quads@, q0, m, lt, blocks, s as int, found, tot as int, j as int, i as int, 0),
            decreases 32 - i,
        {
            let mut k: usize = 0;
            while k < 32
                invariant
                    s < 6,
                    j < 32,
                    i < 32,
                    k <= 32,
                    padded_stored(chunk_mask@, light_levels@, m, lt),
                    chunk.wf(),
                    blocks == chunk_blocks(*chunk),
                    to_mesh@.len() == 196608,
                    quads@.len() == 196608,
                    face_scan(to_mesh@, tm0, quads@, q0, m, lt, blocks, s as int, found, tot as int, j as int, i as int, k as int),
                decreases 32 - k,
            {
                let ghost (x, y, z) = (i as int, j as int, k as int);
                proof {
                    lemma_pad_index(x + 1, y + 1, z + 1, x + 1, y + 1, z + 1);
                    lemma_front_in_pad(s as int, x, y, z, 0, 0);
                    lemma_face_index(s as int, x, y, z);
                }
                let ghost tm1 = to_mesh@;
                let ghost qv1 = quads@;
                let ghost found1 = found;
                if chunk_mask[(i + 1) * 1156 + (j + 1) * 34 + (k + 1)] && !chunk_mask[front_index(s, i, j, k, 0, 0)] {
                    let quad = face_quad(s, i, j, k, chunk_mask, light_levels, chunk, Ghost(m), Ghost(lt));
                    let n = ind_mesh(s, i, j, k);
                    quads.set(n, quad);
                    to_mesh.set(n, true);
                    tot = tot + 1;
                    proof {
                        assert(cube_face(m, s as int, x, y, z));
                        assert(!found1.contains((x, y, z)));
                        found = found1.insert((x, y, z));
                        assert forall|a: int, b: int, c: int|
                            #![trigger to_mesh@[face_index(s as int, a, b, c)]]
                            in_chunk(a, b, c) implies to_mesh@[face_index(s as int, a, b, c)] == (face_visited(j as int, i as int, k + 1, a, b, c)
                                && cube_face(m, s as int, a, b, c)) by {
                            lemma_face_index(s as int, a, b, c);
                            lemma_block_offset_injective(a, b, c, x, y, z);
                        }
                        assert forall|a: int, b: int, c: int|
                            #![trigger quads@[face_index(s as int, a, b, c)]]
                            in_chunk(a, b, c) implies quads@[face_index(s as int, a, b, c)] == (if face_visited(j as int, i as int, k + 1, a, b, c)
                                && cube_face(m, s as int, a, b, c) {
                                cube_quad(m, lt, blocks, s as int, a, b, c)
                            } else {
                                q0[face_index(s as int, a, b, c)]
                            }) by {
                            lemma_face_index(s as int, a, b, c);
                            lemma_block_offset_injective(a, b, c, x, y, z);
                        }
                        assert forall|nn: int| 0 <= nn < quads@.len() && (nn < s * 32768 || nn >= (s + 1) * 32768) implies #[trigger] quads@[nn]
                            == q0[nn] by {
                            assert(qv1[nn] == q0[nn]);
                        }
                        assert forall|nn: int| 0 <= nn < to_mesh@.len() && (nn < s * 32768 || nn >= (s + 1) * 32768) implies #[trigger] to_mesh@[nn]
                            == tm0[nn] by {
                            assert(tm1[nn] == tm0[nn]);
                        }
                    }
                } else {
                    proof {
                        assert(!cube_face(m, s as int, x, y, z));
                    }
                }
                k = k + 1;
            }
            i = i + 1;
        }
        j = j + 1;
    }
    proof {
        assert(found =~= face_set(m, s as int));
    }
    tot
}

/// Which of the three chunks along an axis a padded coordinate falls in
fn pad_part(x: usize) -> (r: usize)
    requires
        x < 34,
    ensures
        r == pad_slot(x as int),
{
    if x == 0 {
        0
    } else if x == 33 {
        2
    } else {
        1
    }
}

/// The coordinate, inside its own chunk, of a padded coordinate
fn inner_part(x: usize) -> (r: u32)
    requires
        x < 34,
    ensures
        r == pad_inner(x as int),
        r < 32,
{
    if x == 0 {
        CHUNK_SIZE - 1
    } else if x == 33 {
        0
    } else {
        x as u32 - 1
    }
}

/// Slot of the chunk that holds a padded position
fn chunk_index(x: usize, y: usize, z: usize) -> (r: usize)
    requires
        in_pad(x as int, y as int, z as int),
    ensures
        r == pad_chunk(x as int, y as int, z as int),
        r < 27,
{
    9 * pad_part(x) + 3 * pad_part(y) + pad_part(z)
}

/// Position, inside its own chunk, of a padded position
fn outside_position(x: usize, y: usize, z: usize) -> (r: (u32, u32, u32))
    requires
        in_pad(x as int, y as int, z as int),
    ensures
        r.0 == pad_inner(x as int) && r.1 == pad_inner(y as int) && r.2 == pad_inner(z as int),
        r.0 < 32 && r.1 < 32 && r.2 < 32,
{
    (inner_part(x), inner_part(y), inner_part(z))
}

/// Padded position (x, y, z) comes before (i, j, k) in the scan of the padded cube
pub open spec fn pad_visited(i: int, j: int, k: int, x: int, y: int, z: int) -> bool {
    x < i || (x == i && (y < j || (y == j && z < k)))
}

/// The opacity and light of the padded cube are stored for the positions before
/// (i, j, k); the others are still transparent and fully lit
pub open spec fn pad_scan(mask: Seq<bool>, light: Seq<u8>, d: ChunkMeshData, meshes: Seq<BlockMesh>, i: int, j: int, k: int) -> bool {
    &&& mask.len() == 39304
    &&& light.len() == 39304
    &&& forall|x: int, y: int, z: int|
        #![trigger mask[pad_index(x, y, z)]]
        in_pad(x, y, z) ==> mask[pad_index(x, y, z)] == (pad_visited(i, j, k, x, y, z) && pad_opaque(d, meshes, x, y, z))
    &&& forall|x: int, y: int, z: int|
        #![trigger light[pad_index(x, y, z)]]
        in_pad(x, y, z) ==> light[pad_index(x, y, z)] == (if pad_visited(i, j, k, x, y, z) {
            pad_light(d, x, y, z)
        } else {
            15
        })
}

/// Gather the opacity and the light of the chunk and of the shell of blocks of
/// its neighbours around it
fn gather_padded(chunk_data: &ChunkMeshData, meshes: &Vec<BlockMesh>) -> (r: (Vec<bool>, Vec<u8>))
    requires
        chunk_data.wf(),
        blocks_have_meshes(*chunk_data, meshes@.len() as int),
    ensures
        padded_stored(r.0@, r.1@, opacity_of(*chunk_data, meshes@), lighting_of(*chunk_data)),
{
    let ghost d = *chunk_data;
    let mut chunk_mask: Vec<bool> = vec![false; 39304];
    let mut light_levels: Vec<u8> = vec![15u8; 39304];
    proof {
        assert forall|x: int, y: int, z: int| #![trigger chunk_mask@[pad_index(x, y, z)]] in_pad(x, y, z) implies chunk_mask@[pad_index(
            x,
            y,
            z,
        )] == (pad_visited(0, 0, 0, x, y, z) && pad_opaque(d, meshes@, x, y, z)) by {
            lemma_pad_index(x, y, z, x, y, z);
            assert(cloned(false, chunk_mask@[pad_index(x, y, z)]));
        }
        assert forall|x: int, y: int, z: int| #![trigger light_levels@[pad_index(x, y, z)]] in_pad(x, y, z) implies light_levels@[pad_index(
            x,
            y,
            z,
        )] == (if pad_visited(0, 0, 0, x, y, z) {
            pad_light(d, x, y, z)
        } else {
            15
        }) by {
            lemma_pad_index(x, y, z, x, y, z);
            assert(cloned(15u8, light_levels@[pad_index(x, y, z)]));
        }
    }
    let mut i: usize = 0;
    while i < 34
        invariant
            i <= 34,
            d == *chunk_data,
            d.wf(),
            blocks_have_meshes(d, meshes@.len() as int),
            pad_scan(chunk_mask@, light_levels@, d, meshes@, i as int, 0, 0),
        decreases 34 - i,
    {
        let mut j: usize = 0;
        while j < 34
            invariant
                i < 34,
                j <= 34,
                d == *chunk_data,
                d.wf(),
                blocks_have_meshes(d, meshes@.len() as int),
                pad_scan(chunk_mask@, light_levels@, d, meshes@, i as int, j as int, 0),
            decreases 34 - j,
        {
            let mut k: usize = 0;
            while k < 34
                invariant
                    i < 34,
                    j < 34,
                    k <= 34,
                    d == *chunk_data,
                    d.wf(),
                    blocks_have_meshes(d, meshes@.len() as int),
                    pad_scan(chunk_mask@, light_levels@, d, meshes@, i as int, j as int, k as int),
                decreases 34 - k,
            {
                let ghost (x, y, z) = (i as int, j as int, k as int);
                let ghost mask1 = chunk_mask@;
                let ghost light1 = light_levels@;
                let ci = chunk_index(i, j, k);
                let u_ind = i * 34 * 34 + j * 34 + k;
                proof {
                    lemma_pad_index(x, y, z, x, y, z);
                    assert(pad_block(d, x, y, z) matches Some(b) ==> b < meshes@.len());
                }
                if ci == 13 {
                    let b = chunk_data.chunk.get_block_at(((i - 1) as u32, (j - 1) as u32, (k - 1) as u32));
                    let masked = meshes[b as usize].is_opaque();
                    chunk_mask.set(u_ind, masked);
                    light_levels.set(u_ind, chunk_data.light_chunk.get_light_at(((i - 1) as u32, (j - 1) as u32, (k - 1) as u32)));
                } else {
                    match &chunk_data.all_chunks[ci] {
                        Some(c) => {
                            let b = c.get_block_at(outside_position(i, j, k));
                            chunk_mask.set(u_ind, meshes[b as usize].is_opaque());
                        },
                        None => {},
                    }
                    match &chunk_data.all_light_chunks[ci] {
                        Some(lc) => {
                            light_levels.set(u_ind, lc.get_light_at(outside_position(i, j, k)));
                        },
                        None => {},
                    }
                }
                proof {
                    assert(chunk_mask@[pad_index(x, y, z)] == pad_opaque(d, meshes@, x, y, z));
                    assert(light_levels@[pad_index(x, y, z)] == pad_light(d, x, y, z));
                    assert forall|a: int, b: int, c: int| #![trigger chunk_mask@[pad_index(a, b, c)]] in_pad(a, b, c) implies chunk_mask@[pad_index(
                        a,
                        b,
                        c,
                    )] == (pad_visited(i as int, j as int, k + 1, a, b, c) && pad_opaque(d, meshes@, a, b, c)) by {
                        lemma_pad_index(a, b, c, x, y, z);
                        assert(mask1[pad_index(a, b, c)] == (pad_visited(i as int, j as int, k as int, a, b, c) && pad_opaque(
                            d,
                            meshes@,
                            a,
                            b,
                            c,
                        )));
                    }
                    assert forall|a: int, b: int, c: int| #![trigger light_levels@[pad_index(a, b, c)]] in_pad(a, b, c) implies light_levels@[pad_index(
                        a,
                        b,
                        c,
                    )] == (if pad_visited(i as int, j as int, k + 1, a, b, c) {
                        pad_light(d, a, b, c)
                    } else {
                        15
                    }) by {
                        lemma_pad_index(a, b, c, x, y, z);
                        assert(light1[pad_index(a, b, c)] == (if pad_visited(i as int, j as int, k as int, a, b, c) {
                            pad_light(d, a, b, c)
                        } else {
                            15
                        }));
                    }
                }
                k = k + 1;
            }
            j = j + 1;
        }
        i = i + 1;
    }
    (chunk_mask, light_levels)
}

/// The rectangles of a mesh: the greedy rectangles of each of the six
/// directions, one direction after the other, for the opacity `m` and light `lt`
/// of a padded cube around a chunk whose blocks are `blocks`
pub open spec fn is_mesh(
    m: spec_fn(int, int, int) -> bool,
    lt: spec_fn(int, int, int) -> u8,
    blocks: spec_fn(int, int, int) -> u16,
    rects: Seq<MeshQuad>,
) -> bool {
    exists|parts: Seq<Seq<MeshQuad>>|
        {
            &&& parts.len() == 6
            &&& forall|s: int| 0 <= s < 6 ==> greedy_rects(plane_faces(m, s), plane_quads(m, lt, blocks, s), s, #[trigger] parts[s])
            &&& rects == parts.flatten_alt()
        }
}

/// The rectangles of the mesh of a chunk, seen with its neighbours and their light
pub open spec fn is_chunk_mesh(d: ChunkMeshData, meshes: Seq<BlockMesh>, rects: Seq<MeshQuad>) -> bool {
    is_mesh(opacity_of(d, meshes), lighting_of(d), blocks_of(d), rects)
}

/// What the reused quad buffer holds at `n` before meshing: its old content, cut
/// or extended with empty quads to the size of the face storage
pub open spec fn reused_quad(q0: Seq<Quad>, n: int) -> Quad {
    if n < q0.len() {
        q0[n]
    } else {
        Quad { v1: 0, v2: 0, v3: 0, v4: 0, block_id: 0 }
    }
}

/// The faces and quads found in block coordinates, seen by plane position
proof fn lemma_faces_by_plane(
    m: spec_fn(int, int, int) -> bool,
    lt: spec_fn(int, int, int) -> u8,
    blocks: spec_fn(int, int, int) -> u16,
    s: int,
    tm: Seq<bool>,
    qv: Seq<Quad>,
)
    requires
        0 <= s < 6,
        tm.len() == 196608,
        qv.len() == 196608,
        forall|x: int, y: int, z: int|
            #![trigger tm[face_index(s, x, y, z)]]
            in_chunk(x, y, z) ==> tm[face_index(s, x, y, z)] == cube_face(m, s, x, y, z),
        forall|x: int, y: int, z: int|
            #![trigger qv[face_index(s, x, y, z)]]
            in_chunk(x, y, z) && cube_face(m, s, x, y, z) ==> qv[face_index(s, x, y, z)] == cube_quad(m, lt, blocks, s, x, y, z),
    ensures
        fresh_faces(tm, s, plane_faces(m, s)),
        quads_stored(qv, s, plane_faces(m, s), plane_quads(m, lt, blocks, s)),
{
    assert forall|a: int, b: int, c: int| #![trigger tm[plane_index(s, a, b, c)]] in_chunk(a, b, c) implies tm[plane_index(s, a, b, c)]
        == (open_face(plane_faces(m, s), Seq::empty(), a, b, c) && !false) by {
        let (x, y, z) = plane_pos(s, a, b, c);
        assert(tm[face_index(s, x, y, z)] == cube_face(m, s, x, y, z));
        assert(!covered(Seq::<MeshQuad>::empty(), a, b, c));
    }
    assert forall|a: int, b: int, c: int|
        #![trigger qv[plane_index(s, a, b, c)]]
        in_chunk(a, b, c) && plane_faces(m, s)(a, b, c) implies qv[plane_index(s, a, b, c)] == plane_quads(m, lt, blocks, s)(a, b, c) by {
        let (x, y, z) = plane_pos(s, a, b, c);
        assert(qv[face_index(s, x, y, z)] == cube_quad(m, lt, blocks, s, x, y, z));
    }
}

/// The part of greedy meshing that follows the gathering of the padded cube:
/// find the faces of the opaque blocks of the chunk that are not hidden by an
/// opaque neighbour, with the ambient occlusion and light of their corners, and
/// merge the adjacent faces drawn alike into rectangles
pub(crate) fn mesh_padded(
    chunk_mask: &Vec<bool>,
    light_levels: &Vec<u8>,
    chunk: &Chunk,
    quads: &mut Vec<Quad>,
    Ghost(m): Ghost<spec_fn(int, int, int) -> bool>,
    Ghost(lt): Ghost<spec_fn(int, int, int) -> u8>,
) -> (res: (Vec<MeshQuad>, Vec<u32>, u32, u32))
    requires
        padded_stored(chunk_mask@, light_levels@, m, lt),
        chunk.wf(),
    ensures
        is_mesh(m, lt, chunk_blocks(*chunk), res.0@),
        res.1@ == mesh_indices(res.0@),
        res.2 == faces_before(m, 6),
        res.3 == res.0@.len(),
        final(quads)@.len() == 196608,
        forall|s: int, x: int, y: int, z: int|
            0 <= s < 6 && in_chunk(x, y, z) ==> #[trigger] final(quads)@[face_index(s, x, y, z)] == (if cube_face(m, s, x, y, z) {
                cube_quad(m, lt, chunk_blocks(*chunk), s, x, y, z)
            } else {
                reused_quad(old(quads)@, face_index(s, x, y, z))
            }),
{
    let ghost blocks = chunk_blocks(*chunk);
    let ghost q_old = quads@;
    quads.resize(196608, Quad::default_quad());
    let ghost q0 = quads@;
    proof {
        assert forall|n: int| 0 <= n < 196608 implies #[trigger] q0[n] == reused_quad(q_old, n) by {
            if n >= q_old.len() {
                assert(cloned(Quad { v1: 0, v2: 0, v3: 0, v4: 0, block_id: 0 }, q0[n]));
            } else if q_old.len() > 196608 {
                assert(q0 == q_old.subrange(0, 196608));
            } else {
                assert(q0.subrange(0, q_old.len() as int)[n] == q_old[n]);
            }
        }
    }
    let mut to_mesh: Vec<bool> = vec![false; 196608];
    proof {
        assert forall|n: int| 0 <= n < 196608 implies !#[trigger] to_mesh@[n] by {
            assert(cloned(false, to_mesh@[n]));
        }
    }
    let mut tot_quad: u32 = 0;
    let mut s: usize = 0;
    while s < 6
        invariant
            s <= 6,
            blocks == chunk_blocks(*chunk),
            chunk.wf(),
            padded_stored(chunk_mask@, light_levels@, m, lt),
            to_mesh@.len() == 196608,
            quads@.len() == 196608,
            q0.len() == 196608,
            forall|s2: int, x: int, y: int, z: int|
                0 <= s2 < 6 && in_chunk(x, y, z) ==> #[trigger] to_mesh@[face_index(s2, x, y, z)] == (s2 < s && cube_face(m, s2, x, y, z)),
            forall|s2: int, x: int, y: int, z: int|
                0 <= s2 < 6 && in_chunk(x, y, z) ==> #[trigger] quads@[face_index(s2, x, y, z)] == (if s2 < s && cube_face(m, s2, x, y, z) {
                    cube_quad(m, lt, blocks, s2, x, y, z)
                } else {
                    q0[face_index(s2, x, y, z)]
                }),
            forall|s2: int| 0 <= s2 < s ==> (#[trigger] face_set(m, s2)).finite(),
            tot_quad == faces_before(m, s as int),
            tot_quad <= s * 32768,
        decreases 6 - s,
    {
        let ghost tm1 = to_mesh@;
        let ghost qv1 = quads@;
        proof {
            assert forall|x: int, y: int, z: int| in_chunk(x, y, z) implies !to_mesh@[#[trigger] face_index(s as int, x, y, z)] by {
                assert(to_mesh@[face_index(s as int, x, y, z)] == (s < s && cube_face(m, s as int, x, y, z)));
            }
        }
        let faces = build_faces(s, chunk_mask, light_levels, chunk, quads, &mut to_mesh, Ghost(m), Ghost(lt));
        proof {
            assert forall|s2: int, x: int, y: int, z: int|
                0 <= s2 < 6 && in_chunk(x, y, z) implies #[trigger] to_mesh@[face_index(s2, x, y, z)] == (s2 < s + 1 && cube_face(
                    m,
                    s2,
                    x,
                    y,
                    z,
                )) by {
                lemma_face_index(s2, x, y, z);
                if s2 != s {
                    assert(tm1[face_index(s2, x, y, z)] == (s2 < s && cube_face(m, s2, x, y, z)));
                }
            }
            assert forall|s2: int, x: int, y: int, z: int|
                0 <= s2 < 6 && in_chunk(x, y, z) implies #[trigger] quads@[face_index(s2, x, y, z)] == (if s2 < s + 1 && cube_face(
                    m,
                    s2,
                    x,
                    y,
                    z,
                ) {
                    cube_quad(m, lt, blocks, s2, x, y, z)
                } else {
                    q0[face_index(s2, x, y, z)]
                }) by {
                lemma_face_index(s2, x, y, z);
                if s2 != s {
                    assert(qv1[face_index(s2, x, y, z)] == (if s2 < s && cube_face(m, s2, x, y, z) {
                        cube_quad(m, lt, blocks, s2, x, y, z)
                    } else {
                        q0[face_index(s2, x, y, z)]
                    }));
                } else {
                    assert(qv1[face_index(s2, x, y, z)] == q0[face_index(s2, x, y, z)]);
                }
            }
        }
        tot_quad = tot_quad + faces;
        s = s + 1;
    }
    let mut res_quads: Vec<MeshQuad> = Vec::new();
    let mut res_index: Vec<u32> = Vec::new();
    let mut n_of_different_vertex: u32 = 0;
    let ghost mut parts: Seq<Seq<MeshQuad>> = Seq::empty();
    proof {
        assert forall|s2: int| 0 <= s2 < 6 implies fresh_faces(to_mesh@, s2, plane_faces(m, s2))
            && quads_stored(quads@, s2, plane_faces(m, s2), plane_quads(m, lt, blocks, s2)) by {
            lemma_faces_by_plane(m, lt, blocks, s2, to_mesh@, quads@);
        }
        assert(res_index@ =~= mesh_indices(res_quads@));
        assert(res_quads@ =~= parts.flatten_alt());
    }
    let mut s: usize = 0;
    while s < 6
        invariant
            s <= 6,
            forall|s2: int|
                s <= s2 < 6 ==> #[trigger] fresh_faces(to_mesh@, s2, plane_faces(m, s2)),
            forall|s2: int| 0 <= s2 < 6 ==> #[trigger] quads_stored(quads@, s2, plane_faces(m, s2), plane_quads(m, lt, blocks, s2)),
            parts.len() == s,
            forall|s2: int| 0 <= s2 < s ==> greedy_rects(plane_faces(m, s2), plane_quads(m, lt, blocks, s2), s2, #[trigger] parts[s2]),
            res_quads@ == parts.flatten_alt(),
            res_quads@.len() <= s * 32768,
            res_index@ == mesh_indices(res_quads@),
            n_of_different_vertex == 4 * res_quads@.len(),
        decreases 6 - s,
    {
        let ghost tm1 = to_mesh@;
        let ghost out1 = res_quads@;
        assert(fresh_faces(to_mesh@, s as int, plane_faces(m, s as int)));
        assert(quads_stored(quads@, s as int, plane_faces(m, s as int), plane_quads(m, lt, blocks, s as int)));
        merge_faces(s, quads, &mut to_mesh, &mut res_quads, &mut res_index, &mut n_of_different_vertex, Ghost(plane_faces(m, s as int)),
            Ghost(plane_quads(m, lt, blocks, s as int)));
        proof {
            let rs = choose|rs: Seq<MeshQuad>|
                greedy_rects(plane_faces(m, s as int), plane_quads(m, lt, blocks, s as int), s as int, rs) && res_quads@ == out1 + rs;
            let parts2 = parts.push(rs);
            assert(parts2.drop_last() =~= parts);
            assert(res_quads@ == parts2.flatten_alt());
            assert forall|s2: int| 0 <= s2 < s + 1 implies greedy_rects(plane_faces(m, s2), plane_quads(m, lt, blocks, s2), s2, #[trigger] parts2[s2]) by {
                if s2 < s {
                    assert(parts2[s2] == parts[s2]);
                }
            }
            assert forall|s2: int| s + 1 <= s2 < 6 implies #[trigger] fresh_faces(to_mesh@, s2, plane_faces(m, s2)) by {
                assert(fresh_faces(tm1, s2, plane_faces(m, s2)));
                assert forall|a: int, b: int, c: int| #![trigger to_mesh@[plane_index(s2, a, b, c)]] in_chunk(a, b, c) implies to_mesh@[plane_index(s2, a, b, c)]
                    == (open_face(plane_faces(m, s2), Seq::empty(), a, b, c) && !false) by {
                    lemma_plane_index(s2, a, b, c, a, b, c);
                    assert(tm1[plane_index(s2, a, b, c)] == (open_face(plane_faces(m, s2), Seq::empty(), a, b, c) && !false));
                }
            }
            parts = parts2;
        }
        s = s + 1;
    }
    let act_quad = res_quads.len() as u32;
    proof {
        assert(is_mesh(m, lt, blocks, res_quads@));
    }
    (res_quads, res_index, tot_quad, act_quad)
}

/// Greedy meshing of a chunk: find the faces of the opaque blocks of the chunk that are not
/// hidden by an opaque neighbour, with the ambient occlusion and light of their
/// corners, and merge the adjacent faces drawn alike into rectangles. Returns
/// the rectangles, the indices of their triangles, the number of faces and the
/// number of rectangles. `quads` is a buffer reused from one call to the next.
pub fn greedy_meshing(chunk_data: ChunkMeshData, meshes: &Vec<BlockMesh>, quads: &mut Vec<Quad>) -> (res: (
    Vec<MeshQuad>,
    Vec<u32>,
    u32,
    u32,
))
    requires
        chunk_data.wf(),
        blocks_have_meshes(chunk_data, meshes@.len() as int),
    ensures
        is_chunk_mesh(chunk_data, meshes@, res.0@),
        res.1@ == mesh_indices(res.0@),
        res.2 == faces_before(opacity_of(chunk_data, meshes@), 6),
        res.3 == res.0@.len(),
        final(quads)@.len() == 196608,
        forall|s: int, x: int, y: int, z: int|
            0 <= s < 6 && in_chunk(x, y, z) ==> #[trigger] final(quads)@[face_index(s, x, y, z)] == (if cube_face(
                opacity_of(chunk_data, meshes@),
                s,
                x,
                y,
                z,
            ) {
                cube_quad(opacity_of(chunk_data, meshes@), lighting_of(chunk_data), blocks_of(chunk_data), s, x, y, z)
            } else {
                reused_quad(old(quads)@, face_index(s, x, y, z))
            }),
{
    let (chunk_mask, light_levels) = gather_padded(&chunk_data, meshes);
    mesh_padded(&chunk_mask, &light_levels, &chunk_data.chunk, quads, Ghost(opacity_of(chunk_data, meshes@)), Ghost(lighting_of(chunk_data)))
}

/// Two rectangles that greedy meshing could build after the same rectangles are
/// the same rectangle
proof fn lemma_greedy_step_unique(
    f: spec_fn(int, int, int) -> bool,
    qs: spec_fn(int, int, int) -> Quad,
    rs: Seq<MeshQuad>,
    r1: MeshQuad,
    r2: MeshQuad,
)
    requires
        greedy_step(f, qs, rs, r1),
        greedy_step(f, qs, rs, r2),
        r1.face == r2.face,
    ensures
        r1 == r2,
{
    let (i1, j1, k1) = (r1.i as int, r1.j as int, r1.k as int);
    let (i2, j2, k2) = (r2.i as int, r2.j as int, r2.k as int);
    if scan_before(i1, j1, k1, i2, j2, k2) {
        assert(!open_face(f, rs, i1, j1, k1));
    }
    if scan_before(i2, j2, k2, i1, j1, k1) {
        assert(!open_face(f, rs, i2, j2, k2));
    }
    assert(i1 == i2 && j1 == j2 && k1 == k2);
    let q = qs(i1, j1, k1);
    if q.v1 == q.v3 && q.v2 == q.v4 {
        if r1.j_end < r2.j_end {
            assert(open_face(f, rs, i1, r1.j_end as int, k1));
            assert(joins_rows(q, qs(i1, r1.j_end as int, k1)));
        }
        if r2.j_end < r1.j_end {
            assert(open_face(f, rs, i1, r2.j_end as int, k1));
            assert(joins_rows(q, qs(i1, r2.j_end as int, k1)));
        }
        if q.v1 == q.v2 {
            if r1.k_end < r2.k_end {
                assert(column_joins(f, qs, rs, q, i1, j1, r1.j_end as int, r1.k_end as int));
            }
            if r2.k_end < r1.k_end {
                assert(column_joins(f, qs, rs, q, i1, j1, r2.j_end as int, r2.k_end as int));
            }
        }
    } else if q.v1 == q.v2 && q.v3 == q.v4 {
        if r1.k_end < r2.k_end {
            assert(open_face(f, rs, i1, j1, r1.k_end as int));
            assert(joins_cols(q, qs(i1, j1, r1.k_end as int)));
        }
        if r2.k_end < r1.k_end {
            assert(open_face(f, rs, i1, j1, r2.k_end as int));
            assert(joins_cols(q, qs(i1, j1, r2.k_end as int)));
        }
    }
}

/// Two greedy sequences of rectangles of a direction agree on their common prefix
proof fn lemma_greedy_prefix(
    f: spec_fn(int, int, int) -> bool,
    qs: spec_fn(int, int, int) -> Quad,
    s: int,
    rs1: Seq<MeshQuad>,
    rs2: Seq<MeshQuad>,
    n: int,
)
    requires
        greedy_rects(f, qs, s, rs1),
        greedy_rects(f, qs, s, rs2),
        0 <= n <= rs1.len() && n <= rs2.len(),
    ensures
        rs1.take(n) == rs2.take(n),
    decreases n,
{
    if n > 0 {
        lemma_greedy_prefix(f, qs, s, rs1, rs2, n - 1);
        assert(greedy_step(f, qs, rs1.take(n - 1), rs1[n - 1]));
        assert(greedy_step(f, qs, rs2.take(n - 1), rs2[n - 1]));
        lemma_greedy_step_unique(f, qs, rs1.take(n - 1), rs1[n - 1], rs2[n - 1]);
        assert(rs1.take(n) =~= rs1.take(n - 1).push(rs1[n - 1]));
        assert(rs2.take(n) =~= rs2.take(n - 1).push(rs2[n - 1]));
    } else {
        assert(rs1.take(0) =~= rs2.take(0));
    }
}

/// Greedy meshing is deterministic: the faces and quads of a direction determine
/// its rectangles
pub proof fn lemma_greedy_rects_unique(
    f: spec_fn(int, int, int) -> bool,
    qs: spec_fn(int, int, int) -> Quad,
    s: int,
    rs1: Seq<MeshQuad>,
    rs2: Seq<MeshQuad>,
)
    requires
        greedy_rects(f, qs, s, rs1),
        greedy_rects(f, qs, s, rs2),
    ensures
        rs1 == rs2,
{
    let l = if rs1.len() < rs2.len() { rs1.len() as int } else { rs2.len() as int };
    lemma_greedy_prefix(f, qs, s, rs1, rs2, l);
    if rs1.len() < rs2.len() {
        assert(rs1.take(l) =~= rs1);
        let r = rs2[l];
        assert(greedy_step(f, qs, rs2.take(l), r));
        assert(open_face(f, rs1, r.i as int, r.j as int, r.k as int));
    }
    if rs2.len() < rs1.len() {
        assert(rs2.take(l) =~= rs2);
        let r = rs1[l];
        assert(greedy_step(f, qs, rs1.take(l), r));
        assert(open_face(f, rs2, r.i as int, r.j as int, r.k as int));
    }
    assert(rs1.take(l) =~= rs1);
    assert(rs2.take(l) =~= rs2);
}

/// Greedy meshing is deterministic: the opacity and light around a chunk and
/// the blocks of the chunk determine the rectangles of its mesh
pub proof fn law_mesh_unique(
    m: spec_fn(int, int, int) -> bool,
    lt: spec_fn(int, int, int) -> u8,
    blocks: spec_fn(int, int, int) -> u16,
    rects1: Seq<MeshQuad>,
    rects2: Seq<MeshQuad>,
)
    requires
        is_mesh(m, lt, blocks, rects1),
        is_mesh(m, lt, blocks, rects2),
    ensures
        rects1 == rects2,
{
    let p1 = choose|parts: Seq<Seq<MeshQuad>>|
        {
            &&& parts.len() == 6
            &&& forall|s: int| 0 <= s < 6 ==> greedy_rects(plane_faces(m, s), plane_quads(m, lt, blocks, s), s, #[trigger] parts[s])
            &&& rects1 == parts.flatten_alt()
        };
    let p2 = choose|parts: Seq<Seq<MeshQuad>>|
        {
            &&& parts.len() == 6
            &&& forall|s: int| 0 <= s < 6 ==> greedy_rects(plane_faces(m, s), plane_quads(m, lt, blocks, s), s, #[trigger] parts[s])
            &&& rects2 == parts.flatten_alt()
        };
    assert forall|s: int| 0 <= s < 6 implies p1[s] == p2[s] by {
        lemma_greedy_rects_unique(plane_faces(m, s), plane_quads(m, lt, blocks, s), s, p1[s], p2[s]);
    }
    assert(p1 =~= p2);
}

/// The mesh of a chunk is determined by the chunk, its neighbours and their light
pub proof fn law_chunk_mesh_unique(d: ChunkMeshData, meshes: Seq<BlockMesh>, rects1: Seq<MeshQuad>, rects2: Seq<MeshQuad>)
    requires
        is_chunk_mesh(d, meshes, rects1),
        is_chunk_mesh(d, meshes, rects2),
    ensures
        rects1 == rects2,
{
    law_mesh_unique(opacity_of(d, meshes), lighting_of(d), blocks_of(d), rects1, rects2);
}

/// Whether a chunk and its neighbors have one value per block, and every block
/// that meshing looks at has one of the first `n_meshes` meshes
pub fn mesh_data_ready(d: &ChunkMeshData, n_meshes: usize) -> (b: bool)
    ensures
        b == (d.wf() && blocks_have_meshes(*d, n_meshes as int)),
{
    if d.chunk.data.len() != 32768 || d.light_chunk.light.len() != 32768 {
        return false;
    }
    let mut t: usize = 0;
    while t < 27
        invariant
            t <= 27,
            d.chunk.wf(),
            d.light_chunk.wf(),
            forall|u: int| 0 <= u < t ==> (#[trigger] d.all_chunks@[u] matches Some(c) ==> c.wf()),
            forall|u: int| 0 <= u < t ==> (#[trigger] d.all_light_chunks@[u] matches Some(c) ==> c.wf()),
        decreases 27 - t,
    {
        match &d.all_chunks[t] {
            Some(c) => {
                if c.data.len() != 32768 {
                    return false;
                }
            },
            None => {},
        }
        match &d.all_light_chunks[t] {
            Some(c) => {
                if c.light.len() != 32768 {
                    return false;
                }
            },
            None => {},
        }
        t = t + 1;
    }
    let mut x: usize = 0;
    while x < 34
        invariant
            x <= 34,
            d.wf(),
            forall|a: int, b: int, c: int|
                0 <= a < x && 0 <= b < 34 && 0 <= c < 34 ==> (#[trigger] pad_block(*d, a, b, c) matches Some(v) ==> v
                    < n_meshes),
        decreases 34 - x,
    {
        let mut y: usize = 0;
        while y < 34
            invariant
                x < 34,
                y <= 34,
                d.wf(),
                forall|a: int, b: int, c: int|
                    (0 <= a < x && 0 <= b < 34 && 0 <= c < 34) || (a == x && 0 <= b < y && 0 <= c < 34) ==> (
                    #[trigger] pad_block(*d, a, b, c) matches Some(v) ==> v < n_meshes),
            decreases 34 - y,
        {
            let mut z: usize = 0;
            while z < 34
                invariant
                    x < 34,
                    y < 34,
                    z <= 34,
                    d.wf(),
                    forall|a: int, b: int, c: int|
                        (0 <= a < x && 0 <= b < 34 && 0 <= c < 34) || (a == x && 0 <= b < y && 0 <= c < 34) || (a == x
                            && b == y && 0 <= c < z) ==> (#[trigger] pad_block(*d, a, b, c) matches Some(v) ==> v
                            < n_meshes),
                decreases 34 - z,
            {
                let slot = chunk_index(x, y, z);
                let (i, j, k) = outside_position(x, y, z);
                let idx = (i * 1024 + j * 32 + k) as usize;
                if slot == 13 {
                    if d.chunk.data[idx] as usize >= n_meshes {
                        assert(!(pad_block(*d, x as int, y as int, z as int) matches Some(v) ==> v < n_meshes));
                        return false;
                    }
                } else {
                    match &d.all_chunks[slot] {
                        Some(c) => {
                            if c.data[idx] as usize >= n_meshes {
                                assert(!(pad_block(*d, x as int, y as int, z as int) matches Some(v) ==> v < n_meshes));
                                return false;
                            }
                        },
                        None => {},
                    }
                }
                z = z + 1;
            }
            y = y + 1;
        }
        x = x + 1;
    }
    true
}

/// State of a meshing worker: the meshes of the blocks, and a quad buffer
/// reused from one chunk to the next
pub struct MeshingState {
    block_meshes: Vec<BlockMesh>,
    quads_reuse: Vec<Quad>,
}

impl MeshingState {
    /// The meshes of the blocks, by block id
    pub closed spec fn meshes(&self) -> Seq<BlockMesh> {
        self.block_meshes@
    }

    pub fn new(block_meshes: Vec<BlockMesh>) -> (r: MeshingState)
        ensures
            r.meshes() == block_meshes@,
    {
        MeshingState { block_meshes, quads_reuse: Vec::new() }
    }

    /// Number of block meshes
    pub fn mesh_count(&self) -> (n: usize)
        ensures
            n == self.meshes().len(),
    {
        self.block_meshes.len()
    }

    /// Mesh a chunk: its position, the rectangles of its mesh and the indices of
    /// their triangles
    pub fn compute(&mut self, input: ChunkMeshData) -> (r: (ChunkPos, Vec<MeshQuad>, Vec<u32>))
        requires
            input.wf(),
            blocks_have_meshes(input, old(self).meshes().len() as int),
        ensures
            final(self).meshes() == old(self).meshes(),
            r.0 == input.chunk.pos,
            is_chunk_mesh(input, old(self).meshes(), r.1@),
            r.2@ == mesh_indices(r.1@),
    {
        let pos = input.chunk.pos;
        let (quads, indices, _, _) = greedy_meshing(input, &self.block_meshes, &mut self.quads_reuse);
        (pos, quads, indices)
    }
}

} // verus!
