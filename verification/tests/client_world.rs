use std::sync::Arc;
use voxel_rs::chunk::{Chunk, ChunkPos};
use voxel_rs::client_world::{any_block_full, BlockContainer, ClientWorld};
use voxel_rs::light::LightChunk;
use voxel_rs::player::RenderDistance;
use voxel_rs::world::BlockPos;

fn chunk_at(px: i64, py: i64, pz: i64) -> (Arc<Chunk>, Arc<LightChunk>) {
    let pos = ChunkPos { px, py, pz };
    (Arc::new(Chunk::new(pos)), Arc::new(LightChunk { pos, light: vec![15; 32768] }))
}

#[test]
fn added_chunks_wait_for_meshing_closest_first() {
    let mut w = ClientWorld::new();
    let (c, l) = chunk_at(0, 0, 0);
    w.add_chunk(c, l);
    let (c, l) = chunk_at(1, 0, 0);
    w.add_chunk(c, l);
    assert_eq!(w.num_loaded_chunks(), 2);
    let rd = RenderDistance::default();
    let todo = w.chunks_to_mesh(ChunkPos { px: 0, py: 0, pz: 0 }, &rd);
    assert_eq!(todo, vec![ChunkPos { px: 0, py: 0, pz: 0 }, ChunkPos { px: 1, py: 0, pz: 0 }]);
    w.mark_queued(ChunkPos { px: 0, py: 0, pz: 0 });
    let todo = w.chunks_to_mesh(ChunkPos { px: 0, py: 0, pz: 0 }, &rd);
    assert_eq!(todo, vec![ChunkPos { px: 1, py: 0, pz: 0 }]);
    // a mesh came back: out of the queue, and meshed
    assert!(w.mesh_received(ChunkPos { px: 0, py: 0, pz: 0 }));
    assert!(!w.mesh_received(ChunkPos { px: 5, py: 0, pz: 0 }));
    let todo = w.chunks_to_mesh(ChunkPos { px: 0, py: 0, pz: 0 }, &rd);
    assert_eq!(todo, vec![ChunkPos { px: 1, py: 0, pz: 0 }]);
    // a new neighbor makes it need meshing again
    let (c, l) = chunk_at(-1, 1, 0);
    w.add_chunk(c, l);
    let todo = w.chunks_to_mesh(ChunkPos { px: 0, py: 0, pz: 0 }, &rd);
    assert_eq!(todo.len(), 3);
    assert_eq!(todo[0], ChunkPos { px: 0, py: 0, pz: 0 });
}

#[test]
fn far_chunks_are_removed() {
    let mut w = ClientWorld::new();
    for x in 0..4 {
        let (c, l) = chunk_at(x, 0, 0);
        w.add_chunk(c, l);
    }
    let rd = RenderDistance { x_max: 1, x_min: 1, y_max: 1, y_min: 1, z_max: 1, z_min: 1 };
    let mut removed = w.remove_far_chunks(ChunkPos { px: 0, py: 0, pz: 0 }, &rd);
    removed.sort_by_key(|p| p.px);
    assert_eq!(removed, vec![ChunkPos { px: 2, py: 0, pz: 0 }, ChunkPos { px: 3, py: 0, pz: 0 }]);
    assert_eq!(w.num_loaded_chunks(), 2);
    assert!(w.remove_far_chunks(ChunkPos { px: 0, py: 0, pz: 0 }, &rd).is_empty());
}

#[test]
fn blocks_of_loaded_chunks_are_read() {
    let mut w = ClientWorld::new();
    let mut chunk = Chunk::new(ChunkPos { px: 0, py: -1, pz: 0 });
    chunk.set_block_at((3, 31, 4), 2);
    let light = LightChunk { pos: chunk.pos, light: vec![0; 32768] };
    w.add_chunk(Arc::new(chunk), Arc::new(light));
    assert!(w.is_block_full(BlockPos { px: 3, py: -1, pz: 4 }));
    assert!(!w.is_block_full(BlockPos { px: 3, py: -2, pz: 4 }));
    assert!(!w.is_block_full(BlockPos { px: 3, py: 5, pz: 4 }));
    assert!(any_block_full(&w, (0, -3, 0), (5, 0, 5)));
    assert!(!any_block_full(&w, (0, 0, 0), (5, 5, 5)));
    assert!(!any_block_full(&w, (4, -3, 0), (1, 0, 5)));
}

#[test]
fn mesh_data_gathers_the_neighbors() {
    let mut w = ClientWorld::new();
    let (c, l) = chunk_at(0, 0, 0);
    w.add_chunk(c, l);
    let (c, l) = chunk_at(0, 0, 1);
    w.add_chunk(c, l);
    let data = w.create_chunk_mesh_data(ChunkPos { px: 0, py: 0, pz: 0 });
    assert_eq!(data.chunk.pos, ChunkPos { px: 0, py: 0, pz: 0 });
    assert_eq!(data.all_chunks.iter().filter(|c| c.is_some()).count(), 2);
    assert_eq!(data.all_chunks[14].as_ref().unwrap().pos, ChunkPos { px: 0, py: 0, pz: 1 });
    assert!(data.all_light_chunks[13].is_some());
    assert!(data.all_light_chunks[12].is_none());
}
