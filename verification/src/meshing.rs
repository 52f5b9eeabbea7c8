use vstd::prelude::*;
use crate::block::BlockMesh;
use crate::chunk::{BlockId, Chunk, ChunkPos, block_index, chunk_volume};
use crate::world::{BlockPos, World};
use crate::light::LightChunk;
use crate::greedy::{MeshQuad, in_pad, pad_index, padded_stored, mesh_padded, is_mesh, mesh_indices, faces_before, chunk_blocks, cube_face, cube_quad, in_chunk, face_index, reused_quad, lemma_pad_index};

verus! {

/// Ambient occlusion level of a vertex from the number of opaque corner and edge
/// blocks around it (cf : https://0fps.net/2013/07/03/ambient-occlusion-for-minecraft-like-worlds/)
pub open spec fn spec_ambiant_occl(corners: u32, edge: u32) -> u32 {
    if edge == 2 {
        0
    } else if edge == 1 && corners == 1 {
        1
    } else if edge + corners == 1 {
        2
    } else {
        3
    }
}

/// Ambient occlusion code
pub fn ambiant_occl(corners: u32, edge: u32) -> (r: u32)
    ensures
        r == spec_ambiant_occl(corners, edge),
        r <= 3,
{
    if edge == 2 {
        0
    } else if edge == 1 && corners == 1 {
        1
    } else if edge as u64 + corners as u64 == 1 {
        2
    } else {
        3
    }
}

/// The face of a block seen from one direction, with the data of its four vertices
#[derive(Debug, Clone, Copy, PartialEq, Eq, Structural)]
pub struct Quad {
    /// i = 0 j = 0
    pub v1: u32,
    /// i = 0 j = 1
    pub v2: u32,
    /// i = 1 j = 0
    pub v3: u32,
    /// i = 1 j = 1
    pub v4: u32,
    pub block_id: u16,
}

impl Quad {
    /// All four vertices carry the same data
    pub open spec fn spec_is_same(&self) -> bool {
        self.v1 == self.v2 && self.v2 == self.v3 && self.v3 == self.v4
    }

    pub fn is_same(&self) -> (b: bool)
        ensures
            b == self.spec_is_same(),
    {
        self.v1 == self.v2 && self.v2 == self.v3 && self.v3 == self.v4
    }

    /// The quad of no face
    pub fn default_quad() -> (q: Quad)
        ensures
            q == (Quad { v1: 0, v2: 0, v3: 0, v4: 0, block_id: 0 }),
    {
        Quad { v1: 0, v2: 0, v3: 0, v4: 0, block_id: 0 }
    }
}

/// Whether a coordinate relative to a chunk lies just outside it
pub open spec fn is_border(x: int) -> bool {
    x == -1 || x == 32
}

/// Whether a coordinate relative to a chunk lies inside it
pub open spec fn is_inside(x: int) -> bool {
    0 <= x < 32
}

/// Number of coordinates of a position that lie just outside the chunk
pub open spec fn outside_count(x: int, y: int, z: int) -> int {
    (if is_border(x) { 1int } else { 0int }) + (if is_border(y) { 1int } else { 0int }) + (if is_border(z) { 1int } else { 0int })
}

/// A position in the shell of blocks that surrounds a chunk
pub open spec fn in_shell(x: int, y: int, z: int) -> bool {
    &&& (is_border(x) || is_inside(x))
    &&& (is_border(y) || is_inside(y))
    &&& (is_border(z) || is_inside(z))
    &&& outside_count(x, y, z) >= 1
}

/// 0 for the far side (32), 1 for the near side (-1)
pub open spec fn side(x: int) -> int {
    if x == 32 { 0 } else { 1 }
}

/// Structure containing information about adjacent chunks for the meshing
/// Order of face 1x, -1x, 1y, -1y, 1z, -1z => the two order component are in the (x,y,z) order
/// Order of edges (yz), (y-z), (-y z), (-y - z), (xz), (x -z), (-x z), (x - z), (xy), (x - y), (-x y) (-x - y)
/// Order of coins (1,1,1), (1, 1 -1), (1, -1, 1), (1, -1, -1),
///  ... (-1,1,1), (-1, 1 -1), (-1, -1, 1), (-1, -1, -1),
/// Faces are stored flat: face `f`, row `a`, column `b` at `f * 1024 + a * 32 + b`;
/// edges likewise at `e * 32 + a`.
#[derive(Debug, Clone)]
pub struct AdjChunkOccl {
    pub faces: Vec<bool>,
    pub edges: Vec<bool>,
    pub corners: Vec<bool>,
}

impl AdjChunkOccl {
    pub open spec fn wf(&self) -> bool {
        &&& self.faces@.len() == 6 * 1024
        &&& self.edges@.len() == 12 * 32
        &&& self.corners@.len() == 8
    }

    /// Whether the block at a position of the shell around the chunk is opaque
    pub open spec fn spec_is_full(&self, x: int, y: int, z: int) -> bool {
        let n = outside_count(x, y, z);
        if n == 1 {
            if x == 32 {
                self.faces@[0 * 1024 + y * 32 + z]
            } else if x == -1 {
                self.faces@[1 * 1024 + y * 32 + z]
            } else if y == 32 {
                self.faces@[2 * 1024 + x * 32 + z]
            } else if y == -1 {
                self.faces@[3 * 1024 + x * 32 + z]
            } else if z == 32 {
                self.faces@[4 * 1024 + x * 32 + y]
            } else {
                self.faces@[5 * 1024 + x * 32 + y]
            }
        } else if n == 2 {
            if is_inside(x) {
                self.edges@[(side(y) * 2 + side(z)) * 32 + x]
            } else if is_inside(y) {
                self.edges@[(side(x) * 2 + side(z) + 4) * 32 + y]
            } else {
                self.edges@[(side(x) * 2 + side(y) + 8) * 32 + z]
            }
        } else {
            self.corners@[side(x) * 4 + side(y) * 2 + side(z)]
        }
    }

    /// x, y, z are the position relative to the chunk (0, 0, 0)
    /// Return if the block outside the chunk is opaque
    pub fn is_full(&self, x: i32, y: i32, z: i32) -> (b: bool)
        requires
            self.wf(),
            in_shell(x as int, y as int, z as int),
        ensures
            b == self.spec_is_full(x as int, y as int, z as int),
    {
        let mut n_outside: u32 = 0;
        if x == -1 || x == 32 {
            n_outside = n_outside + 1;
        }
        if y == -1 || y == 32 {
            n_outside = n_outside + 1;
        }
        if z == -1 || z == 32 {
            n_outside = n_outside + 1;
        }
        if n_outside == 1 {
            if x == 32 {
                self.faces[(0 * 1024 + y * 32 + z) as usize]
            } else if x == -1 {
                self.faces[(1 * 1024 + y * 32 + z) as usize]
            } else if y == 32 {
                self.faces[(2 * 1024 + x * 32 + z) as usize]
            } else if y == -1 {
                self.faces[(3 * 1024 + x * 32 + z) as usize]
            } else if z == 32 {
                self.faces[(4 * 1024 + x * 32 + y) as usize]
            } else {
                self.faces[(5 * 1024 + x * 32 + y) as usize]
            }
        } else if n_outside == 2 {
            if x >= 0 && x < 32 {
                let i = delta(y) * 2 + delta(z);
                self.edges[i * 32 + x as usize]
            } else if y >= 0 && y < 32 {
                let i = delta(x) * 2 + delta(z);
                self.edges[(i + 4) * 32 + y as usize]
            } else {
                let i = delta(x) * 2 + delta(y);
                self.edges[(i + 8) * 32 + z as usize]
            }
        } else {
            let i = delta(x) * 4 + delta(y) * 2 + delta(z);
            self.corners[i]
        }
    }
}

/// Index of the side of a coordinate just outside the chunk
fn delta(x: i32) -> (r: usize)
    requires
        is_border(x as int),
    ensures
        r == side(x as int),
{
    if x == 32 {
        0
    } else {
        1
    }
}

/// Same as AdjChunkOccl but for the light, need only the faces
#[derive(Debug, Clone)]
pub struct AdjChunkLight {
    pub faces: Vec<u8>,
}

impl AdjChunkLight {
    pub open spec fn wf(&self) -> bool {
        self.faces@.len() == 6 * 1024
    }

    /// The light level of a block just outside a face of the chunk
    pub open spec fn spec_get_light(&self, x: int, y: int, z: int) -> u8 {
        if x == 32 {
            self.faces@[0 * 1024 + y * 32 + z]
        } else if x == -1 {
            self.faces@[1 * 1024 + y * 32 + z]
        } else if y == 32 {
            self.faces@[2 * 1024 + x * 32 + z]
        } else if y == -1 {
            self.faces@[3 * 1024 + x * 32 + z]
        } else if z == 32 {
            self.faces@[4 * 1024 + x * 32 + y]
        } else {
            self.faces@[5 * 1024 + x * 32 + y]
        }
    }

    /// Return the light at some position (only on the face)
    pub fn get_light(&self, x: i32, y: i32, z: i32) -> (l: u8)
        requires
            self.wf(),
            in_shell(x as int, y as int, z as int),
            outside_count(x as int, y as int, z as int) == 1,
        ensures
            l == self.spec_get_light(x as int, y as int, z as int),
    {
        if x == 32 {
            self.faces[(0 * 1024 + y * 32 + z) as usize]
        } else if x == -1 {
            self.faces[(1 * 1024 + y * 32 + z) as usize]
        } else if y == 32 {
            self.faces[(2 * 1024 + x * 32 + z) as usize]
        } else if y == -1 {
            self.faces[(3 * 1024 + x * 32 + z) as usize]
        } else if z == 32 {
            self.faces[(4 * 1024 + x * 32 + y) as usize]
        } else {
            self.faces[(5 * 1024 + x * 32 + y) as usize]
        }
    }
}

} // verus!

verus! {

/// Block coordinate, inside a neighbor chunk, that touches the current chunk along
/// an axis where the neighbor is offset by `d` chunks (`d` in -1, 0, 1; 0 means "any")
pub open spec fn near_coord(d: int) -> u32 {
    if d == -1 { 31 } else { 0 }
}

/// Offset of the neighbor chunk of face `f`
pub open spec fn face_offset(f: int) -> (int, int, int) {
    if f == 0 { (1, 0, 0) } else if f == 1 { (-1, 0, 0) } else if f == 2 { (0, 1, 0) } else if f == 3 { (0, -1, 0) } else if f == 4 { (0, 0, 1) } else { (0, 0, -1) }
}

/// Offset of the neighbor chunk of edge `e`
pub open spec fn edge_offset(e: int) -> (int, int, int) {
    if e == 0 { (0, 1, 1) } else if e == 1 { (0, 1, -1) } else if e == 2 { (0, -1, 1) } else if e == 3 { (0, -1, -1) }
    else if e == 4 { (1, 0, 1) } else if e == 5 { (1, 0, -1) } else if e == 6 { (-1, 0, 1) } else if e == 7 { (-1, 0, -1) }
    else if e == 8 { (1, 1, 0) } else if e == 9 { (1, -1, 0) } else if e == 10 { (-1, 1, 0) } else { (-1, -1, 0) }
}

/// Offset of the neighbor chunk of corner `c`
pub open spec fn corner_offset(c: int) -> (int, int, int) {
    (if c / 4 == 0 { 1int } else { -1int }, if (c / 2) % 2 == 0 { 1int } else { -1int }, if c % 2 == 0 { 1int } else { -1int })
}

/// Position, in the neighbor chunk of face `f`, of the block at row `j` and column `k` of the face
pub open spec fn face_sample(f: int, j: u32, k: u32) -> (u32, u32, u32) {
    let d = face_offset(f);
    if f / 2 == 0 {
        (near_coord(d.0), j, k)
    } else if f / 2 == 1 {
        (j, near_coord(d.1), k)
    } else {
        (j, k, near_coord(d.2))
    }
}

/// Position, in the neighbor chunk of edge `e`, of the block at index `j` along the edge
pub open spec fn edge_sample(e: int, j: u32) -> (u32, u32, u32) {
    let d = edge_offset(e);
    if e / 4 == 0 {
        (j, near_coord(d.1), near_coord(d.2))
    } else if e / 4 == 1 {
        (near_coord(d.0), j, near_coord(d.2))
    } else {
        (near_coord(d.0), near_coord(d.1), j)
    }
}

/// Position, in the neighbor chunk of corner `c`, of the corner block
pub open spec fn corner_sample(c: int) -> (u32, u32, u32) {
    let d = corner_offset(c);
    (near_coord(d.0), near_coord(d.1), near_coord(d.2))
}

/// The chunk position `pos` moved by `d`
pub open spec fn moved(pos: ChunkPos, d: (int, int, int)) -> ChunkPos {
    ChunkPos { px: (pos.px + d.0) as i64, py: (pos.py + d.1) as i64, pz: (pos.pz + d.2) as i64 }
}

/// Whether the block at `p` of the loaded chunk at `c` is opaque (false when the chunk is not loaded)
pub open spec fn opaque_at(world: &World, meshes: Seq<BlockMesh>, c: ChunkPos, p: (u32, u32, u32)) -> bool {
    if world.view().dom().contains(c) {
        meshes[world.view()[c][block_index(p.0, p.1, p.2)] as int].spec_is_opaque()
    } else {
        false
    }
}

/// The block at `p` of the chunk at `c`, if loaded, has a known mesh
pub open spec fn mesh_known(world: &World, meshes: Seq<BlockMesh>, c: ChunkPos, p: (u32, u32, u32)) -> bool {
    world.view().dom().contains(c) ==> world.view()[c][block_index(p.0, p.1, p.2)] < meshes.len()
}

/// Every block sampled around the chunk at `pos` has a known mesh
pub open spec fn adjacent_meshes_known(world: &World, meshes: Seq<BlockMesh>, pos: ChunkPos) -> bool {
    &&& forall|f: int, j: u32, k: u32|
        0 <= f < 6 && j < 32 && k < 32 ==> mesh_known(world, meshes, moved(pos, face_offset(f)), #[trigger] face_sample(f, j, k))
    &&& forall|e: int, j: u32| 0 <= e < 12 && j < 32 ==> mesh_known(world, meshes, moved(pos, edge_offset(e)), #[trigger] edge_sample(e, j))
    &&& forall|c: int| 0 <= c < 8 ==> mesh_known(world, meshes, moved(pos, corner_offset(c)), #[trigger] corner_sample(c))
}

/// The chunk positions around `pos` fit machine integers
pub open spec fn neighbors_fit(pos: ChunkPos) -> bool {
    &&& i64::MIN < pos.px < i64::MAX
    &&& i64::MIN < pos.py < i64::MAX
    &&& i64::MIN < pos.pz < i64::MAX
}

fn face_offset_exec(f: usize) -> (d: (i64, i64, i64))
    requires
        f < 6,
    ensures
        d.0 == face_offset(f as int).0 && d.1 == face_offset(f as int).1 && d.2 == face_offset(f as int).2,
{
    if f == 0 { (1, 0, 0) } else if f == 1 { (-1, 0, 0) } else if f == 2 { (0, 1, 0) } else if f == 3 { (0, -1, 0) } else if f == 4 { (0, 0, 1) } else { (0, 0, -1) }
}

fn edge_offset_exec(e: usize) -> (d: (i64, i64, i64))
    requires
        e < 12,
    ensures
        d.0 == edge_offset(e as int).0 && d.1 == edge_offset(e as int).1 && d.2 == edge_offset(e as int).2,
{
    if e == 0 { (0, 1, 1) } else if e == 1 { (0, 1, -1) } else if e == 2 { (0, -1, 1) } else if e == 3 { (0, -1, -1) }
    else if e == 4 { (1, 0, 1) } else if e == 5 { (1, 0, -1) } else if e == 6 { (-1, 0, 1) } else if e == 7 { (-1, 0, -1) }
    else if e == 8 { (1, 1, 0) } else if e == 9 { (1, -1, 0) } else if e == 10 { (-1, 1, 0) } else { (-1, -1, 0) }
}

fn corner_offset_exec(c: usize) -> (d: (i64, i64, i64))
    requires
        c < 8,
    ensures
        d.0 == corner_offset(c as int).0 && d.1 == corner_offset(c as int).1 && d.2 == corner_offset(c as int).2,
{
    (if c / 4 == 0 { 1 } else { -1 }, if (c / 2) % 2 == 0 { 1 } else { -1 }, if c % 2 == 0 { 1 } else { -1 })
}

/// Transform a chunk delta into the block coordinate of the neighbor chunk touching the current one
fn near_coord_exec(d: i64) -> (r: u32)
    ensures
        r == near_coord(d as int),
{
    if d == -1 { 31 } else { 0 }
}

/// Whether the block at `p` of the chunk at `c` is opaque (false when the chunk is not loaded)
fn opaque_at_exec(world: &World, meshes: &Vec<BlockMesh>, c: ChunkPos, p: (u32, u32, u32)) -> (b: bool)
    requires
        world.wf(),
        p.0 < 32 && p.1 < 32 && p.2 < 32,
        mesh_known(world, meshes@, c, p),
    ensures
        b == opaque_at(world, meshes@, c, p),
{
    match world.get_chunk(c) {
        Some(chunk) => {
            proof {
                crate::world::lemma_block_index_injective(p.0, p.1, p.2, p.0, p.1, p.2);
            }
            let b = chunk.get_block_at(p);
            meshes[b as usize].is_opaque()
        },
        None => false,
    }
}

impl AdjChunkOccl {
    /// The faces, edges and corners describe the opacity of the blocks around the chunk at `pos`
    pub open spec fn describes(&self, world: &World, meshes: Seq<BlockMesh>, pos: ChunkPos) -> bool {
        &&& self.wf()
        &&& forall|f: int, j: u32, k: u32|
            0 <= f < 6 && j < 32 && k < 32 ==> #[trigger] self.faces@[f * 1024 + j * 32 + k] == opaque_at(world, meshes, moved(pos, face_offset(f)), face_sample(f, j, k))
        &&& forall|e: int, j: u32|
            0 <= e < 12 && j < 32 ==> #[trigger] self.edges@[e * 32 + j] == opaque_at(world, meshes, moved(pos, edge_offset(e)), edge_sample(e, j))
        &&& forall|c: int|
            0 <= c < 8 ==> #[trigger] self.corners@[c] == opaque_at(world, meshes, moved(pos, corner_offset(c)), corner_sample(c))
    }

    /// Generate the AdjChunkOccl struct used in the meshing containing the
    /// informations about adjacent chunks
    pub fn create_from_world(world: &World, pos: ChunkPos, meshes: &Vec<BlockMesh>) -> (a: AdjChunkOccl)
        requires
            world.wf(),
            neighbors_fit(pos),
            adjacent_meshes_known(world, meshes@, pos),
        ensures
            a.describes(world, meshes@, pos),
    {
        // faces
        let mut faces: Vec<bool> = Vec::new();
        let mut f: usize = 0;
        while f < 6
            invariant
                world.wf(),
                neighbors_fit(pos),
                adjacent_meshes_known(world, meshes@, pos),
                f <= 6,
                faces@.len() == f * 1024,
                forall|f2: int, j: u32, k: u32|
                    0 <= f2 < f && j < 32 && k < 32 ==> #[trigger] faces@[f2 * 1024 + j * 32 + k] == opaque_at(world, meshes@, moved(pos, face_offset(f2)), face_sample(f2, j, k)),
            decreases 6 - f,
        {
            let d = face_offset_exec(f);
            let c = pos.offset(d.0, d.1, d.2);
            let mut j: u32 = 0;
            while j < 32
                invariant
                    world.wf(),
                    adjacent_meshes_known(world, meshes@, pos),
                    f < 6,
                    d.0 == face_offset(f as int).0 && d.1 == face_offset(f as int).1 && d.2 == face_offset(f as int).2,
                    c == moved(pos, face_offset(f as int)),
                    j <= 32,
                    faces@.len() == f * 1024 + j * 32,
                    forall|f2: int, j2: u32, k: u32|
                        0 <= f2 < f && j2 < 32 && k < 32 ==> #[trigger] faces@[f2 * 1024 + j2 * 32 + k] == opaque_at(world, meshes@, moved(pos, face_offset(f2)), face_sample(f2, j2, k)),
                    forall|j2: u32, k: u32|
                        j2 < j && k < 32 ==> #[trigger] faces@[f * 1024 + j2 * 32 + k] == opaque_at(world, meshes@, c, face_sample(f as int, j2, k)),
                decreases 32 - j,
            {
                let mut k: u32 = 0;
                while k < 32
                    invariant
                        world.wf(),
                        adjacent_meshes_known(world, meshes@, pos),
                        f < 6,
                        d.0 == face_offset(f as int).0 && d.1 == face_offset(f as int).1 && d.2 == face_offset(f as int).2,
                        c == moved(pos, face_offset(f as int)),
                        j < 32,
                        k <= 32,
                        faces@.len() == f * 1024 + j * 32 + k,
                        forall|f2: int, j2: u32, k2: u32|
                            0 <= f2 < f && j2 < 32 && k2 < 32 ==> #[trigger] faces@[f2 * 1024 + j2 * 32 + k2] == opaque_at(world, meshes@, moved(pos, face_offset(f2)), face_sample(f2, j2, k2)),
                        forall|j2: u32, k2: u32|
                            j2 < j && k2 < 32 ==> #[trigger] faces@[f * 1024 + j2 * 32 + k2] == opaque_at(world, meshes@, c, face_sample(f as int, j2, k2)),
                        forall|k2: u32|
                            k2 < k ==> #[trigger] faces@[f * 1024 + j * 32 + k2] == opaque_at(world, meshes@, c, face_sample(f as int, j, k2)),
                    decreases 32 - k,
                {
                    let p = if f / 2 == 0 {
                        (near_coord_exec(d.0), j, k)
                    } else if f / 2 == 1 {
                        (j, near_coord_exec(d.1), k)
                    } else {
                        (j, k, near_coord_exec(d.2))
                    };
                    assert(p == face_sample(f as int, j, k));
                    assert(mesh_known(world, meshes@, moved(pos, face_offset(f as int)), face_sample(f as int, j, k)));
                    let b = opaque_at_exec(world, meshes, c, p);
                    faces.push(b);
                    k = k + 1;
                }
                j = j + 1;
            }
            f = f + 1;
        }
        // edges
        let mut edges: Vec<bool> = Vec::new();
        let mut e: usize = 0;
        while e < 12
            invariant
                world.wf(),
                neighbors_fit(pos),
                adjacent_meshes_known(world, meshes@, pos),
                e <= 12,
                edges@.len() == e * 32,
                forall|e2: int, j: u32|
                    0 <= e2 < e && j < 32 ==> #[trigger] edges@[e2 * 32 + j] == opaque_at(world, meshes@, moved(pos, edge_offset(e2)), edge_sample(e2, j)),
            decreases 12 - e,
        {
            let d = edge_offset_exec(e);
            let c = pos.offset(d.0, d.1, d.2);
            let mut j: u32 = 0;
            while j < 32
                invariant
                    world.wf(),
                    adjacent_meshes_known(world, meshes@, pos),
                    e < 12,
                    d.0 == edge_offset(e as int).0 && d.1 == edge_offset(e as int).1 && d.2 == edge_offset(e as int).2,
                    c == moved(pos, edge_offset(e as int)),
                    j <= 32,
                    edges@.len() == e * 32 + j,
                    forall|e2: int, j2: u32|
                        0 <= e2 < e && j2 < 32 ==> #[trigger] edges@[e2 * 32 + j2] == opaque_at(world, meshes@, moved(pos, edge_offset(e2)), edge_sample(e2, j2)),
                    forall|j2: u32| j2 < j ==> #[trigger] edges@[e * 32 + j2] == opaque_at(world, meshes@, c, edge_sample(e as int, j2)),
                decreases 32 - j,
            {
                let p = if e / 4 == 0 {
                    (j, near_coord_exec(d.1), near_coord_exec(d.2))
                } else if e / 4 == 1 {
                    (near_coord_exec(d.0), j, near_coord_exec(d.2))
                } else {
                    (near_coord_exec(d.0), near_coord_exec(d.1), j)
                };
                assert(p == edge_sample(e as int, j));
                assert(mesh_known(world, meshes@, moved(pos, edge_offset(e as int)), edge_sample(e as int, j)));
                let b = opaque_at_exec(world, meshes, c, p);
                edges.push(b);
                j = j + 1;
            }
            e = e + 1;
        }
        // corners
        let mut corners: Vec<bool> = Vec::new();
        let mut ci: usize = 0;
        while ci < 8
            invariant
                world.wf(),
                neighbors_fit(pos),
                adjacent_meshes_known(world, meshes@, pos),
                ci <= 8,
                corners@.len() == ci,
                forall|c2: int| 0 <= c2 < ci ==> #[trigger] corners@[c2] == opaque_at(world, meshes@, moved(pos, corner_offset(c2)), corner_sample(c2)),
            decreases 8 - ci,
        {
            let d = corner_offset_exec(ci);
            let c = pos.offset(d.0, d.1, d.2);
            let p = (near_coord_exec(d.0), near_coord_exec(d.1), near_coord_exec(d.2));
            assert(p == corner_sample(ci as int));
            assert(mesh_known(world, meshes@, moved(pos, corner_offset(ci as int)), corner_sample(ci as int)));
            let b = opaque_at_exec(world, meshes, c, p);
            corners.push(b);
            ci = ci + 1;
        }
        AdjChunkOccl { faces, edges, corners }
    }
}


/// Position, in the neighbor chunk of face `f`, of the block at row `j` and column `k` of the face
fn face_sample_exec(f: usize, j: u32, k: u32) -> (r: (u32, u32, u32))
    requires
        f < 6,
    ensures
        r == face_sample(f as int, j, k),
{
    if f == 0 {
        (0, j, k)
    } else if f == 1 {
        (31, j, k)
    } else if f == 2 {
        (j, 0, k)
    } else if f == 3 {
        (j, 31, k)
    } else if f == 4 {
        (j, k, 0)
    } else {
        (j, k, 31)
    }
}

/// The light level that face `f` of a chunk sees at row `j` and column `k`:
/// that of the touching block of the neighbor chunk, or full light without one
pub open spec fn face_light(neighbor: Option<&LightChunk>, f: int, j: u32, k: u32) -> u8 {
    match neighbor {
        Some(lc) => {
            let q = face_sample(f, j, k);
            lc.light@[q.0 * 1024 + q.1 * 32 + q.2]
        },
        None => 15,
    }
}

impl AdjChunkLight {
    /// The light around a chunk, from the light chunks of its six neighbors
    /// (in the order +x, -x, +y, -y, +z, -z)
    pub fn create_from_neighbors(neighbors: &Vec<Option<&LightChunk>>) -> (a: AdjChunkLight)
        requires
            neighbors@.len() == 6,
            forall|f: int| 0 <= f < 6 ==> (#[trigger] neighbors@[f] matches Some(lc) ==> lc.wf()),
        ensures
            a.wf(),
            forall|f: int, j: u32, k: u32|
                0 <= f < 6 && j < 32 && k < 32 ==> #[trigger] a.faces@[f * 1024 + j * 32 + k] == face_light(
                    neighbors@[f],
                    f,
                    j,
                    k,
                ),
    {
        let mut faces: Vec<u8> = Vec::new();
        let mut f: usize = 0;
        while f < 6
            invariant
                f <= 6,
                neighbors@.len() == 6,
                forall|g: int| 0 <= g < 6 ==> (#[trigger] neighbors@[g] matches Some(lc) ==> lc.wf()),
                faces@.len() == f * 1024,
                forall|g: int, j: u32, k: u32|
                    0 <= g < f && j < 32 && k < 32 ==> #[trigger] faces@[g * 1024 + j * 32 + k] == face_light(
                        neighbors@[g],
                        g,
                        j,
                        k,
                    ),
            decreases 6 - f,
        {
            let mut j: u32 = 0;
            while j < 32
                invariant
                    f < 6,
                    j <= 32,
                    neighbors@.len() == 6,
                    forall|g: int| 0 <= g < 6 ==> (#[trigger] neighbors@[g] matches Some(lc) ==> lc.wf()),
                    faces@.len() == f * 1024 + j * 32,
                    forall|g: int, j2: u32, k: u32|
                        (0 <= g < f && j2 < 32 && k < 32) || (g == f && j2 < j && k < 32) ==> #[trigger] faces@[g
                            * 1024 + j2 * 32 + k] == face_light(neighbors@[g], g, j2, k),
                decreases 32 - j,
            {
                let mut k: u32 = 0;
                while k < 32
                    invariant
                        f < 6,
                        j < 32,
                        k <= 32,
                        neighbors@.len() == 6,
                        forall|g: int| 0 <= g < 6 ==> (#[trigger] neighbors@[g] matches Some(lc) ==> lc.wf()),
                        faces@.len() == f * 1024 + j * 32 + k,
                        forall|g: int, j2: u32, k2: u32|
                            (0 <= g < f && j2 < 32 && k2 < 32) || (g == f && j2 < j && k2 < 32) || (g == f && j2 == j
                                && k2 < k) ==> #[trigger] faces@[g * 1024 + j2 * 32 + k2] == face_light(
                                neighbors@[g],
                                g,
                                j2,
                                k2,
                            ),
                    decreases 32 - k,
                {
                    let l = match neighbors[f] {
                        Some(lc) => lc.get_light_at(face_sample_exec(f, j, k)),
                        None => 15,
                    };
                    faces.push(l);
                    k = k + 1;
                }
                j = j + 1;
            }
            f = f + 1;
        }
        AdjChunkLight { faces }
    }
}

} // verus!

verus! {

/// Every block of the chunk has one of the first `n_meshes` meshes
pub open spec fn chunk_meshes_known(chunk: Chunk, n_meshes: int) -> bool {
    forall|i: int| 0 <= i < chunk.data@.len() ==> #[trigger] chunk.data@[i] < n_meshes
}

/// Whether the block at (x, y, z), relative to the chunk, is opaque: inside the
/// chunk from its own block, around it from what is known of the neighbours
/// (nothing is opaque where nothing is known)
pub open spec fn full_at(chunk: Chunk, adj: Option<AdjChunkOccl>, meshes: Seq<BlockMesh>, x: int, y: int, z: int) -> bool {
    if is_inside(x) && is_inside(y) && is_inside(z) {
        meshes[chunk.data@[x * 1024 + y * 32 + z] as int].spec_is_opaque()
    } else {
        match adj {
            Some(a) => a.spec_is_full(x, y, z),
            None => false,
        }
    }
}

/// The light at (x, y, z), relative to the chunk: inside the chunk from its
/// light, just outside one of its faces from the light of the neighbours, fully
/// lit on the edges and corners around it
pub open spec fn light_near(light_chunk: LightChunk, adj_light: AdjChunkLight, x: int, y: int, z: int) -> u8 {
    if is_inside(x) && is_inside(y) && is_inside(z) {
        light_chunk.light@[x * 1024 + y * 32 + z]
    } else if outside_count(x, y, z) == 1 {
        adj_light.spec_get_light(x, y, z)
    } else {
        15
    }
}

/// The opacity of the padded cube around the chunk, seen with its neighbours
pub open spec fn neighbor_opacity(chunk: Chunk, adj: Option<AdjChunkOccl>, meshes: Seq<BlockMesh>) -> spec_fn(int, int, int) -> bool {
    |x: int, y: int, z: int| full_at(chunk, adj, meshes, x - 1, y - 1, z - 1)
}

/// The light of the padded cube around the chunk, seen with its neighbours
pub open spec fn neighbor_lighting(light_chunk: LightChunk, adj_light: AdjChunkLight) -> spec_fn(int, int, int) -> u8 {
    |x: int, y: int, z: int| light_near(light_chunk, adj_light, x - 1, y - 1, z - 1)
}

/// Return True if full block (taking into account adjacent chunks)
fn is_full(chunk: &Chunk, p: (i32, i32, i32), adj: &Option<AdjChunkOccl>, meshes: &Vec<BlockMesh>) -> (b: bool)
    requires
        chunk.wf(),
        chunk_meshes_known(*chunk, meshes@.len() as int),
        adj matches Some(a) ==> a.wf(),
        in_shell(p.0 as int, p.1 as int, p.2 as int) || (is_inside(p.0 as int) && is_inside(p.1 as int) && is_inside(p.2 as int)),
    ensures
        b == full_at(*chunk, *adj, meshes@, p.0 as int, p.1 as int, p.2 as int),
{
    let (i, j, k) = p;
    if i >= 0 && j >= 0 && k >= 0 && i < 32 && j < 32 && k < 32 {
        let b = chunk.get_block_at((i as u32, j as u32, k as u32));
        meshes[b as usize].is_opaque()
    } else {
        match adj {
            Some(a) => a.is_full(i, j, k),
            None => false,
        }
    }
}

/// The padded positions before (i, j, k) hold the opacity and light of the
/// padded cube; the others are still transparent and fully lit
pub open spec fn gathered_before(
    mask: Seq<bool>,
    light: Seq<u8>,
    m: spec_fn(int, int, int) -> bool,
    lt: spec_fn(int, int, int) -> u8,
    i: int,
    j: int,
    k: int,
) -> bool {
    &&& mask.len() == 39304
    &&& light.len() == 39304
    &&& forall|x: int, y: int, z: int|
        #![trigger mask[pad_index(x, y, z)]]
        in_pad(x, y, z) ==> mask[pad_index(x, y, z)] == (crate::greedy::pad_visited(i, j, k, x, y, z) && m(x, y, z))
    &&& forall|x: int, y: int, z: int|
        #![trigger light[pad_index(x, y, z)]]
        in_pad(x, y, z) ==> light[pad_index(x, y, z)] == (if crate::greedy::pad_visited(i, j, k, x, y, z) {
            lt(x, y, z)
        } else {
            15
        })
}

/// Store one padded position after the positions before it
proof fn lemma_gather_step(
    mask1: Seq<bool>,
    light1: Seq<u8>,
    mask: Seq<bool>,
    light: Seq<u8>,
    m: spec_fn(int, int, int) -> bool,
    lt: spec_fn(int, int, int) -> u8,
    i: int,
    j: int,
    k: int,
)
    requires
        in_pad(i, j, k),
        gathered_before(mask1, light1, m, lt, i, j, k),
        mask == mask1.update(pad_index(i, j, k), m(i, j, k)),
        light == light1.update(pad_index(i, j, k), lt(i, j, k)),
    ensures
        gathered_before(mask, light, m, lt, i, j, k + 1),
{
    lemma_pad_index(i, j, k, i, j, k);
    assert forall|a: int, b: int, c: int| #![trigger mask[pad_index(a, b, c)]] in_pad(a, b, c) implies mask[pad_index(a, b, c)]
        == (crate::greedy::pad_visited(i, j, k + 1, a, b, c) && m(a, b, c)) by {
        lemma_pad_index(a, b, c, i, j, k);
        assert(mask1[pad_index(a, b, c)] == (crate::greedy::pad_visited(i, j, k, a, b, c) && m(a, b, c)));
    }
    assert forall|a: int, b: int, c: int| #![trigger light[pad_index(a, b, c)]] in_pad(a, b, c) implies light[pad_index(a, b, c)]
        == (if crate::greedy::pad_visited(i, j, k + 1, a, b, c) {
        lt(a, b, c)
    } else {
        15
    }) by {
        lemma_pad_index(a, b, c, i, j, k);
        assert(light1[pad_index(a, b, c)] == (if crate::greedy::pad_visited(i, j, k, a, b, c) {
            lt(a, b, c)
        } else {
            15
        }));
    }
}

/// Gather the opacity and the light of the chunk and of the shell of blocks
/// around it, as far as the neighbours are known
fn gather_around(
    chunk: &Chunk,
    light_chunk: &LightChunk,
    adj: &Option<AdjChunkOccl>,
    adj_light: &AdjChunkLight,
    meshes: &Vec<BlockMesh>,
) -> (r: (Vec<bool>, Vec<u8>))
    requires
        chunk.wf(),
        light_chunk.wf(),
        chunk_meshes_known(*chunk, meshes@.len() as int),
        adj matches Some(a) ==> a.wf(),
        adj_light.wf(),
    ensures
        padded_stored(r.0@, r.1@, neighbor_opacity(*chunk, *adj, meshes@), neighbor_lighting(*light_chunk, *adj_light)),
{
    let ghost m = neighbor_opacity(*chunk, *adj, meshes@);
    let ghost lt = neighbor_lighting(*light_chunk, *adj_light);
    let mut chunk_mask: Vec<bool> = vec![false; 39304];
    let mut light_levels: Vec<u8> = vec![15u8; 39304];
    proof {
        assert forall|x: int, y: int, z: int| #![trigger chunk_mask@[pad_index(x, y, z)]] in_pad(x, y, z) implies chunk_mask@[pad_index(
            x,
            y,
            z,
        )] == (crate::greedy::pad_visited(0, 0, 0, x, y, z) && m(x, y, z)) by {
            lemma_pad_index(x, y, z, x, y, z);
            assert(cloned(false, chunk_mask@[pad_index(x, y, z)]));
        }
        assert forall|x: int, y: int, z: int| #![trigger light_levels@[pad_index(x, y, z)]] in_pad(x, y, z) implies light_levels@[pad_index(
            x,
            y,
            z,
        )] == (if crate::greedy::pad_visited(0, 0, 0, x, y, z) {
            lt(x, y, z)
        } else {
            15
        }) by {
            lemma_pad_index(x, y, z, x, y, z);
            assert(cloned(15u8, light_levels@[pad_index(x, y, z)]));
        }
    }
    let mut i: usize = 0;
    while i < 34
        invariant
            i <= 34,
            chunk.wf(),
            light_chunk.wf(),
            chunk_meshes_known(*chunk, meshes@.len() as int),
            adj matches Some(a) ==> a.wf(),
            adj_light.wf(),
            m == neighbor_opacity(*chunk, *adj, meshes@),
            lt == neighbor_lighting(*light_chunk, *adj_light),
            gathered_before(chunk_mask@, light_levels@, m, lt, i as int, 0, 0),
        decreases 34 - i,
    {
        let mut j: usize = 0;
        while j < 34
            invariant
                i < 34,
                j <= 34,
                chunk.wf(),
                light_chunk.wf(),
                chunk_meshes_known(*chunk, meshes@.len() as int),
                adj matches Some(a) ==> a.wf(),
                adj_light.wf(),
                m == neighbor_opacity(*chunk, *adj, meshes@),
                lt == neighbor_lighting(*light_chunk, *adj_light),
                gathered_before(chunk_mask@, light_levels@, m, lt, i as int, j as int, 0),
            decreases 34 - j,
        {
            let mut k: usize = 0;
            while k < 34
                invariant
                    i < 34,
                    j < 34,
                    k <= 34,
                    chunk.wf(),
                    light_chunk.wf(),
                    chunk_meshes_known(*chunk, meshes@.len() as int),
                    adj matches Some(a) ==> a.wf(),
                    adj_light.wf(),
                    m == neighbor_opacity(*chunk, *adj, meshes@),
                    lt == neighbor_lighting(*light_chunk, *adj_light),
                    gathered_before(chunk_mask@, light_levels@, m, lt, i as int, j as int, k as int),
                decreases 34 - k,
            {
                let ghost mask1 = chunk_mask@;
                let ghost light1 = light_levels@;
                let x = i as i32 - 1;
                let y = j as i32 - 1;
                let z = k as i32 - 1;
                let u_ind = i * 34 * 34 + j * 34 + k;
                proof {
                    lemma_pad_index(i as int, j as int, k as int, i as int, j as int, k as int);
                }
                let full = is_full(chunk, (x, y, z), adj, meshes);
                chunk_mask.set(u_ind, full);
                let inside_x = 0 <= x && x < 32;
                let inside_y = 0 <= y && y < 32;
                let inside_z = 0 <= z && z < 32;
                let level = if inside_x && inside_y && inside_z {
                    light_chunk.get_light_at((x as u32, y as u32, z as u32))
                } else if (inside_x && inside_y) || (inside_x && inside_z) || (inside_y && inside_z) {
                    adj_light.get_light(x, y, z)
                } else {
                    15
                };
                light_levels.set(u_ind, level);
                proof {
                    assert(full == m(i as int, j as int, k as int));
                    assert(level == lt(i as int, j as int, k as int));
                    lemma_gather_step(mask1, light1, chunk_mask@, light_levels@, m, lt, i as int, j as int, k as int);
                }
                k = k + 1;
            }
            proof {
                assert forall|x: int, y: int, z: int| in_pad(x, y, z) implies crate::greedy::pad_visited(i as int, j as int, 34, x, y, z)
                    == crate::greedy::pad_visited(i as int, j + 1, 0, x, y, z) by {}
            }
            j = j + 1;
        }
        proof {
            assert forall|x: int, y: int, z: int| in_pad(x, y, z) implies crate::greedy::pad_visited(i as int, 34, 0, x, y, z)
                == crate::greedy::pad_visited(i + 1, 0, 0, x, y, z) by {}
        }
        i = i + 1;
    }
    proof {
        assert forall|x: int, y: int, z: int| in_pad(x, y, z) implies crate::greedy::pad_visited(34, 0, 0, x, y, z) by {}
    }
    (chunk_mask, light_levels)
}

/// Greedy meshing of a chunk seen with what is known of its neighbours: find
/// the faces of its opaque blocks that are not hidden by an opaque block, with
/// the ambient occlusion and light of their corners, and merge the adjacent
/// faces drawn alike into rectangles. Returns the rectangles, the indices of
/// their triangles, the number of faces and the number of rectangles. `quads`
/// is a buffer reused from one call to the next.
pub fn greedy_meshing(
    chunk: &Chunk,
    light_chunk: &LightChunk,
    adj: Option<AdjChunkOccl>,
    adj_light: AdjChunkLight,
    meshes: &Vec<BlockMesh>,
    quads: &mut Vec<Quad>,
) -> (res: (Vec<MeshQuad>, Vec<u32>, u32, u32))
    requires
        chunk.wf(),
        light_chunk.wf(),
        chunk_meshes_known(*chunk, meshes@.len() as int),
        adj matches Some(a) ==> a.wf(),
        adj_light.wf(),
    ensures
        is_mesh(
            neighbor_opacity(*chunk, adj, meshes@),
            neighbor_lighting(*light_chunk, adj_light),
            chunk_blocks(*chunk),
            res.0@,
        ),
        res.1@ == mesh_indices(res.0@),
        res.2 == faces_before(neighbor_opacity(*chunk, adj, meshes@), 6),
        res.3 == res.0@.len(),
        final(quads)@.len() == 196608,
        forall|s: int, x: int, y: int, z: int|
            0 <= s < 6 && in_chunk(x, y, z) ==> #[trigger] final(quads)@[face_index(s, x, y, z)] == (if cube_face(
                neighbor_opacity(*chunk, adj, meshes@),
                s,
                x,
                y,
                z,
            ) {
                cube_quad(
                    neighbor_opacity(*chunk, adj, meshes@),
                    neighbor_lighting(*light_chunk, adj_light),
                    chunk_blocks(*chunk),
                    s,
                    x,
                    y,
                    z,
                )
            } else {
                reused_quad(old(quads)@, face_index(s, x, y, z))
            }),
{
    let (chunk_mask, light_levels) = gather_around(chunk, light_chunk, &adj, &adj_light, meshes);
    mesh_padded(
        &chunk_mask,
        &light_levels,
        chunk,
        quads,
        Ghost(neighbor_opacity(*chunk, adj, meshes@)),
        Ghost(neighbor_lighting(*light_chunk, adj_light)),
    )
}

} // verus!

verus! {

/// The chunk offset, along one axis, of the chunk that holds coordinate `x`
/// relative to a chunk (-1 and 32 lie in the chunks before and after)
pub open spec fn shell_chunk_delta(x: int) -> int {
    if x == -1 {
        -1
    } else if x == 32 {
        1
    } else {
        0
    }
}

/// The coordinate, inside its own chunk, of coordinate `x` relative to a chunk
pub open spec fn shell_inner(x: int) -> u32 {
    if x == -1 {
        31
    } else if x == 32 {
        0
    } else {
        x as u32
    }
}

/// The occlusion around a chunk built from a world answers, for every block of
/// the shell around the chunk (faces, edges and corners alike), whether that
/// block of the world is opaque: false where its chunk is not loaded
pub proof fn law_occlusion_reads_world(
    a: AdjChunkOccl,
    world: &World,
    meshes: Seq<BlockMesh>,
    pos: ChunkPos,
    x: int,
    y: int,
    z: int,
)
    requires
        a.describes(world, meshes, pos),
        in_shell(x, y, z),
    ensures
        a.spec_is_full(x, y, z) == opaque_at(
            world,
            meshes,
            moved(pos, (shell_chunk_delta(x), shell_chunk_delta(y), shell_chunk_delta(z))),
            (shell_inner(x), shell_inner(y), shell_inner(z)),
        ),
{
    let n = outside_count(x, y, z);
    if n == 1 {
        if x == 32 {
            assert(a.faces@[0 * 1024 + (y as u32) * 32 + (z as u32)] == opaque_at(world, meshes, moved(pos, face_offset(0)), face_sample(0, y as u32, z as u32)));
        } else if x == -1 {
            assert(a.faces@[1 * 1024 + (y as u32) * 32 + (z as u32)] == opaque_at(world, meshes, moved(pos, face_offset(1)), face_sample(1, y as u32, z as u32)));
        } else if y == 32 {
            assert(a.faces@[2 * 1024 + (x as u32) * 32 + (z as u32)] == opaque_at(world, meshes, moved(pos, face_offset(2)), face_sample(2, x as u32, z as u32)));
        } else if y == -1 {
            assert(a.faces@[3 * 1024 + (x as u32) * 32 + (z as u32)] == opaque_at(world, meshes, moved(pos, face_offset(3)), face_sample(3, x as u32, z as u32)));
        } else if z == 32 {
            assert(a.faces@[4 * 1024 + (x as u32) * 32 + (y as u32)] == opaque_at(world, meshes, moved(pos, face_offset(4)), face_sample(4, x as u32, y as u32)));
        } else {
            assert(a.faces@[5 * 1024 + (x as u32) * 32 + (y as u32)] == opaque_at(world, meshes, moved(pos, face_offset(5)), face_sample(5, x as u32, y as u32)));
        }
    } else if n == 2 {
        if is_inside(x) {
            let e = side(y) * 2 + side(z);
            assert(a.edges@[e * 32 + (x as u32)] == opaque_at(world, meshes, moved(pos, edge_offset(e)), edge_sample(e, x as u32)));
        } else if is_inside(y) {
            let e = side(x) * 2 + side(z) + 4;
            assert(a.edges@[e * 32 + (y as u32)] == opaque_at(world, meshes, moved(pos, edge_offset(e)), edge_sample(e, y as u32)));
        } else {
            let e = side(x) * 2 + side(y) + 8;
            assert(a.edges@[e * 32 + (z as u32)] == opaque_at(world, meshes, moved(pos, edge_offset(e)), edge_sample(e, z as u32)));
        }
    } else {
        let c = side(x) * 4 + side(y) * 2 + side(z);
        assert(a.corners@[c] == opaque_at(world, meshes, moved(pos, corner_offset(c)), corner_sample(c)));
    }
}

/// The face of the chunk that a block just outside it touches (+x, -x, +y, -y, +z, -z)
pub open spec fn shell_face(x: int, y: int, z: int) -> int {
    if x == 32 {
        0
    } else if x == -1 {
        1
    } else if y == 32 {
        2
    } else if y == -1 {
        3
    } else if z == 32 {
        4
    } else {
        5
    }
}

/// The light around a chunk built from the light chunks of its six neighbours
/// answers, for every block just outside a face of the chunk, the light of that
/// block in the neighbour, or full light where the neighbour has no light chunk
pub proof fn law_light_reads_neighbors(a: AdjChunkLight, neighbors: Seq<Option<&LightChunk>>, x: int, y: int, z: int)
    requires
        a.wf(),
        neighbors.len() == 6,
        forall|f: int, j: u32, k: u32|
            0 <= f < 6 && j < 32 && k < 32 ==> #[trigger] a.faces@[f * 1024 + j * 32 + k] == face_light(neighbors[f], f, j, k),
        in_shell(x, y, z),
        outside_count(x, y, z) == 1,
    ensures
        a.spec_get_light(x, y, z) == match neighbors[shell_face(x, y, z)] {
            Some(lc) => lc.light@[shell_inner(x) * 1024 + shell_inner(y) * 32 + shell_inner(z)],
            None => 15u8,
        },
{
    if x == 32 {
        assert(a.faces@[0 * 1024 + (y as u32) * 32 + (z as u32)] == face_light(neighbors[0], 0, y as u32, z as u32));
    } else if x == -1 {
        assert(a.faces@[1 * 1024 + (y as u32) * 32 + (z as u32)] == face_light(neighbors[1], 1, y as u32, z as u32));
    } else if y == 32 {
        assert(a.faces@[2 * 1024 + (x as u32) * 32 + (z as u32)] == face_light(neighbors[2], 2, x as u32, z as u32));
    } else if y == -1 {
        assert(a.faces@[3 * 1024 + (x as u32) * 32 + (z as u32)] == face_light(neighbors[3], 3, x as u32, z as u32));
    } else if z == 32 {
        assert(a.faces@[4 * 1024 + (x as u32) * 32 + (y as u32)] == face_light(neighbors[4], 4, x as u32, y as u32));
    } else {
        assert(a.faces@[5 * 1024 + (x as u32) * 32 + (y as u32)] == face_light(neighbors[5], 5, x as u32, y as u32));
    }
}

} // verus!

verus! {

/// Along one axis, the block at coordinate `x` relative to the chunk at `p`
/// lies in the chunk `p + shell_chunk_delta(x)`, at `shell_inner(x)` inside it
proof fn lemma_shell_axis(p: int, x: int)
    requires
        -1 <= x <= 32,
    ensures
        (p * 32 + x) / 32 == p + shell_chunk_delta(x),
        (p * 32 + x) % 32 == shell_inner(x) as int,
{
    if x == -1 {
        assert((p * 32 - 1) / 32 == p - 1 && (p * 32 - 1) % 32 == 31) by (nonlinear_arith);
    } else if x == 32 {
        assert((p * 32 + 32) / 32 == p + 1 && (p * 32 + 32) % 32 == 0) by (nonlinear_arith);
    } else {
        assert((p * 32 + x) / 32 == p && (p * 32 + x) % 32 == x) by (nonlinear_arith)
            requires 0 <= x < 32;
    }
}

/// The occlusion around a chunk built from a world answers, for every block of
/// the shell around the chunk, whether the block of the world at that world
/// position is opaque: false where its chunk is not loaded
pub proof fn law_occlusion_reads_world_blocks(
    a: AdjChunkOccl,
    world: &World,
    meshes: Seq<BlockMesh>,
    pos: ChunkPos,
    x: int,
    y: int,
    z: int,
)
    requires
        a.describes(world, meshes, pos),
        in_shell(x, y, z),
        i64::MIN <= pos.px * 32 - 1 && pos.px * 32 + 32 <= i64::MAX,
        i64::MIN <= pos.py * 32 - 1 && pos.py * 32 + 32 <= i64::MAX,
        i64::MIN <= pos.pz * 32 - 1 && pos.pz * 32 + 32 <= i64::MAX,
    ensures
        ({
            let b = BlockPos { px: (pos.px * 32 + x) as i64, py: (pos.py * 32 + y) as i64, pz: (pos.pz * 32 + z) as i64 };
            a.spec_is_full(x, y, z) == opaque_at(world, meshes, b.spec_containing_chunk_pos(), b.spec_pos_in_containing_chunk())
        }),
{
    law_occlusion_reads_world(a, world, meshes, pos, x, y, z);
    lemma_shell_axis(pos.px as int, x);
    lemma_shell_axis(pos.py as int, y);
    lemma_shell_axis(pos.pz as int, z);
    let b = BlockPos { px: (pos.px * 32 + x) as i64, py: (pos.py * 32 + y) as i64, pz: (pos.pz * 32 + z) as i64 };
    assert(b.spec_containing_chunk_pos() == moved(pos, (shell_chunk_delta(x), shell_chunk_delta(y), shell_chunk_delta(z))));
    assert(b.spec_pos_in_containing_chunk() == (shell_inner(x), shell_inner(y), shell_inner(z)));
}

} // verus!
