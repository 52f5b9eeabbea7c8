use voxel_rs::block::BlockMesh;
use voxel_rs::chunk::{Chunk, ChunkPos};
use voxel_rs::light::LightChunk;
use voxel_rs::meshing::{ambiant_occl, greedy_meshing as neighbor_greedy_meshing, AdjChunkLight, AdjChunkOccl, Quad};
use voxel_rs::world::World;

#[test]
fn ambient_occlusion_levels() {
    assert_eq!(ambiant_occl(0, 2), 0);
    assert_eq!(ambiant_occl(1, 2), 0);
    assert_eq!(ambiant_occl(1, 1), 1);
    assert_eq!(ambiant_occl(0, 1), 2);
    assert_eq!(ambiant_occl(1, 0), 2);
    assert_eq!(ambiant_occl(0, 0), 3);
}

#[test]
fn quad_is_same() {
    let q = Quad { v1: 3, v2: 3, v3: 3, v4: 3, block_id: 1 };
    assert!(q.is_same());
    let r = Quad { v1: 3, v2: 3, v3: 4, v4: 3, block_id: 1 };
    assert!(!r.is_same());
    assert!(BlockMesh::FullCube.is_opaque());
    assert!(!BlockMesh::Empty.is_opaque());
}

#[test]
fn adjacent_occlusion_from_world() {
    let mut w = World::new();
    let mut east = Chunk::new(ChunkPos { px: 1, py: 0, pz: 0 });
    east.set_block_at((0, 4, 5), 1);
    w.set_chunk(east);
    let mut corner = Chunk::new(ChunkPos { px: -1, py: -1, pz: -1 });
    corner.set_block_at((31, 31, 31), 1);
    w.set_chunk(corner);
    let meshes = vec![BlockMesh::Empty, BlockMesh::FullCube];
    let adj = AdjChunkOccl::create_from_world(&w, ChunkPos { px: 0, py: 0, pz: 0 }, &meshes);
    assert!(adj.is_full(32, 4, 5));
    assert!(!adj.is_full(32, 4, 6));
    assert!(!adj.is_full(-1, 4, 5));
    assert!(adj.is_full(-1, -1, -1));
    assert!(!adj.is_full(32, 32, 32));
    assert!(!adj.is_full(3, 32, 32));
}

#[test]
fn adjacent_light_faces() {
    let mut faces = vec![0u8; 6 * 1024];
    faces[2 * 1024 + 3 * 32 + 4] = 9;
    faces[5 * 1024 + 1 * 32 + 2] = 7;
    let adj = AdjChunkLight { faces };
    assert_eq!(adj.get_light(3, 32, 4), 9);
    assert_eq!(adj.get_light(1, 2, -1), 7);
    assert_eq!(adj.get_light(0, 0, -1), 0);
}

#[test]
fn light_around_from_neighbors() {
    use_light_around();
}

fn use_light_around() {
    let mut lit = voxel_rs::light::LightChunk { pos: voxel_rs::chunk::ChunkPos { px: 1, py: 0, pz: 0 }, light: vec![0; 32768] };
    // block (0, 2, 3) of the +x neighbor touches the chunk
    lit.light[2 * 32 + 3] = 9;
    let neighbors = vec![Some(&lit), None, None, None, None, None];
    let adj = voxel_rs::meshing::AdjChunkLight::create_from_neighbors(&neighbors);
    assert_eq!(adj.faces.len(), 6 * 1024);
    assert_eq!(adj.get_light(32, 2, 3), 9);
    assert_eq!(adj.get_light(32, 2, 4), 0);
    assert_eq!(adj.get_light(-1, 2, 3), 15);
    assert_eq!(adj.get_light(5, 5, 32), 15);
}

fn dark_neighbors(level: u8) -> AdjChunkLight {
    AdjChunkLight { faces: vec![level; 6 * 1024] }
}

fn no_neighbors_opaque() -> AdjChunkOccl {
    AdjChunkOccl { faces: vec![false; 6 * 1024], edges: vec![false; 12 * 32], corners: vec![false; 8] }
}

#[test]
fn meshing_with_neighbors_single_block() {
    let mut c = Chunk::new(ChunkPos { px: 0, py: 0, pz: 0 });
    c.set_block_at((3, 4, 5), 1);
    let light = LightChunk { pos: ChunkPos { px: 0, py: 0, pz: 0 }, light: vec![9; 32768] };
    let meshes = vec![BlockMesh::Empty, BlockMesh::FullCube];
    let mut buffer: Vec<Quad> = Vec::new();
    let (quads, indices, faces, merged) =
        neighbor_greedy_meshing(&c, &light, None, dark_neighbors(2), &meshes, &mut buffer);
    assert_eq!(faces, 6);
    assert_eq!(merged, 6);
    assert_eq!(indices.len(), 36);
    for (s, q) in quads.iter().enumerate() {
        assert_eq!(q.face, s);
        // inside the chunk: the light of the chunk itself
        let v = s as u32 + 3 * 8 + 9 * 32;
        assert_eq!(q.quad, Quad { v1: v, v2: v, v3: v, v4: v, block_id: 1 });
    }
    assert_eq!(buffer.len(), 6 * 32768);
}

#[test]
fn meshing_with_neighbors_hides_faces_against_opaque_neighbor() {
    let mut c = Chunk::new(ChunkPos { px: 0, py: 0, pz: 0 });
    c.set_block_at((0, 4, 5), 1);
    let light = LightChunk { pos: ChunkPos { px: 0, py: 0, pz: 0 }, light: vec![9; 32768] };
    let meshes = vec![BlockMesh::Empty, BlockMesh::FullCube];
    let mut adj = no_neighbors_opaque();
    // the -x neighbour is opaque everywhere along its face
    for v in adj.faces[1024..2048].iter_mut() {
        *v = true;
    }
    let mut buffer: Vec<Quad> = Vec::new();
    let (quads, _, faces, merged) =
        neighbor_greedy_meshing(&c, &light, Some(adj.clone()), dark_neighbors(2), &meshes, &mut buffer);
    assert_eq!(faces, 5);
    assert_eq!(merged, 5);
    assert!(quads.iter().all(|q| q.face != 1));
    // the +y face sees the opaque neighbour at its -x side: occlusion drops on that edge
    let up = quads.iter().find(|q| q.face == 2).unwrap();
    assert_eq!(up.quad.v1, 2 + 1 * 8 + 9 * 32);
    assert_eq!(up.quad.v3, 2 + 3 * 8 + 9 * 32);
    // without neighbours the face towards -x shows, lit by the neighbour's light
    let (quads2, _, faces2, _) =
        neighbor_greedy_meshing(&c, &light, None, dark_neighbors(2), &meshes, &mut buffer);
    assert_eq!(faces2, 6);
    let west = quads2.iter().find(|q| q.face == 1).unwrap();
    assert_eq!(west.quad.v1, 1 + 3 * 8 + 2 * 32);
}

#[test]
fn occlusion_reads_edges_of_the_world() {
    let mut w = World::new();
    // the edge neighbour at (0, +1, +1): block x = 7 touching the chunk along the edge
    let mut edge = Chunk::new(ChunkPos { px: 0, py: 1, pz: 1 });
    edge.set_block_at((7, 0, 0), 1);
    w.set_chunk(edge);
    let meshes = vec![BlockMesh::Empty, BlockMesh::FullCube];
    let adj = AdjChunkOccl::create_from_world(&w, ChunkPos { px: 0, py: 0, pz: 0 }, &meshes);
    assert!(adj.is_full(7, 32, 32));
    assert!(!adj.is_full(8, 32, 32));
    assert!(!adj.is_full(7, -1, 32));
}
