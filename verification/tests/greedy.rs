use std::sync::Arc;
use voxel_rs::block::BlockMesh;
use voxel_rs::chunk::{Chunk, ChunkPos};
use voxel_rs::greedy::{greedy_meshing, ChunkMeshData, MeshQuad, MeshingState};
use voxel_rs::light::LightChunk;
use voxel_rs::meshing::Quad;

fn lit_chunk(level: u8) -> LightChunk {
    LightChunk { pos: ChunkPos { px: 0, py: 0, pz: 0 }, light: vec![level; 32768] }
}

fn mesh_data(chunk: Chunk) -> ChunkMeshData {
    ChunkMeshData {
        chunk: Arc::new(chunk),
        all_chunks: Default::default(),
        light_chunk: Arc::new(lit_chunk(7)),
        all_light_chunks: Default::default(),
    }
}

fn meshes() -> Vec<BlockMesh> {
    vec![BlockMesh::Empty, BlockMesh::FullCube]
}

#[test]
fn empty_chunk_has_no_mesh() {
    let c = Chunk::new(ChunkPos { px: 0, py: 0, pz: 0 });
    let mut buffer: Vec<Quad> = Vec::new();
    let (quads, indices, faces, merged) = greedy_meshing(mesh_data(c), &meshes(), &mut buffer);
    assert!(quads.is_empty());
    assert!(indices.is_empty());
    assert_eq!(faces, 0);
    assert_eq!(merged, 0);
    assert_eq!(buffer.len(), 6 * 32768);
}

#[test]
fn single_block_has_six_faces() {
    let mut c = Chunk::new(ChunkPos { px: 0, py: 0, pz: 0 });
    c.set_block_at((3, 4, 5), 1);
    let mut buffer: Vec<Quad> = Vec::new();
    let (quads, indices, faces, merged) = greedy_meshing(mesh_data(c), &meshes(), &mut buffer);
    assert_eq!(faces, 6);
    assert_eq!(merged, 6);
    assert_eq!(quads.len(), 6);
    assert_eq!(indices.len(), 36);
    for (s, q) in quads.iter().enumerate() {
        assert_eq!(q.face, s);
        // no opaque block around: full occlusion level 3, light 7 of the block in front
        let v = s as u32 + 3 * 8 + 7 * 32;
        assert_eq!(q.quad, Quad { v1: v, v2: v, v3: v, v4: v, block_id: 1 });
        assert_eq!(q.j_end - q.j, 1);
        assert_eq!(q.k_end - q.k, 1);
    }
    // +x face of block (3, 4, 5): plane 3, row 4, column 5
    assert_eq!(quads[0], MeshQuad { face: 0, i: 3, j: 4, k: 5, j_end: 5, k_end: 6, quad: quads[0].quad });
    // +z face: plane z = 5, row x = 3, column y = 4
    assert_eq!((quads[4].i, quads[4].j, quads[4].k), (5, 3, 4));
    // first quad: diagonal from the second to the third vertex, order 0 2 3 0 3 1
    assert_eq!(&indices[0..6], &[0, 2, 3, 0, 3, 1]);
    assert_eq!(&indices[6..12], &[4, 7, 6, 4, 5, 7]);
}

#[test]
fn full_chunk_merges_each_side() {
    let mut c = Chunk::new(ChunkPos { px: 0, py: 0, pz: 0 });
    for b in c.data.iter_mut() {
        *b = 1;
    }
    let mut buffer: Vec<Quad> = Vec::new();
    let (quads, indices, faces, merged) = greedy_meshing(mesh_data(c), &meshes(), &mut buffer);
    assert_eq!(faces, 6 * 1024);
    assert_eq!(merged, 6);
    assert_eq!(indices.len(), 36);
    for q in quads.iter() {
        assert_eq!((q.j, q.k, q.j_end, q.k_end), (0, 0, 32, 32));
        // the blocks in front lie in missing chunks: fully lit
        let v = q.face as u32 + 3 * 8 + 15 * 32;
        assert_eq!(q.quad.v1, v);
    }
    assert_eq!(quads[0].i, 31);
    assert_eq!(quads[1].i, 0);
}

#[test]
fn occlusion_of_a_corner() {
    // a floor of two blocks with a third block on one of them: the top face of the
    // other floor block is occluded on the side of the raised block
    let mut c = Chunk::new(ChunkPos { px: 0, py: 0, pz: 0 });
    c.set_block_at((10, 10, 10), 1);
    c.set_block_at((11, 10, 10), 1);
    c.set_block_at((11, 11, 10), 1);
    let mut buffer: Vec<Quad> = Vec::new();
    let (quads, _indices, _faces, _merged) = greedy_meshing(mesh_data(c), &meshes(), &mut buffer);
    // +y faces: plane y, row x, column z; the top face of block (10, 10, 10)
    let top = quads.iter().find(|q| q.face == 2 && q.i == 10 && q.j == 10).unwrap();
    let l = 7 * 32 + 2;
    // corners toward +x (rows +1) see one edge block: occlusion 2; the others 3
    assert_eq!(top.quad.v1, l + 3 * 8);
    assert_eq!(top.quad.v2, l + 3 * 8);
    assert_eq!(top.quad.v3, l + 2 * 8);
    assert_eq!(top.quad.v4, l + 2 * 8);
    assert_eq!((top.j_end, top.k_end), (11, 11));
}

#[test]
fn meshing_state_meshes_a_chunk() {

    let mut state = MeshingState::new(meshes());
    let mut c = Chunk::new(ChunkPos { px: 2, py: -1, pz: 0 });
    c.set_block_at((0, 0, 0), 1);
    c.set_block_at((0, 0, 1), 1);
    let data = ChunkMeshData {
        chunk: Arc::new(c),
        all_chunks: Default::default(),
        light_chunk: Arc::new(lit_chunk(7)),
        all_light_chunks: Default::default(),
    };
    let (pos, quads, indices) = state.compute(data);
    assert_eq!(pos, ChunkPos { px: 2, py: -1, pz: 0 });
    // two blocks in a row along z: four long faces and two end faces
    assert_eq!(quads.len(), 6);
    assert_eq!(indices.len(), 36);
    let empty = Chunk::new(ChunkPos { px: 0, py: 0, pz: 0 });
    let (_, quads, _) = state.compute(mesh_data(empty));
    assert!(quads.is_empty());
}
