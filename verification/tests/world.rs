use voxel_rs::chunk::{Chunk, ChunkPos, ChunkPosXZ};
use voxel_rs::world::{BlockPos, HighestOpaqueBlock, World};

#[test]
fn block_pos_decomposition() {
    let p = BlockPos { px: -1, py: 33, pz: 64 };
    assert_eq!(p.containing_chunk_pos(), ChunkPos { px: -1, py: 1, pz: 2 });
    assert_eq!(p.pos_in_containing_chunk(), (31, 1, 0));
    let q = BlockPos { px: -32, py: -33, pz: 31 };
    assert_eq!(q.containing_chunk_pos(), ChunkPos { px: -1, py: -2, pz: 0 });
    assert_eq!(q.pos_in_containing_chunk(), (0, 31, 31));
}

#[test]
fn world_get_after_set() {
    let mut w = World::new();
    let p = BlockPos { px: 40, py: -5, pz: 3 };
    assert_eq!(w.get_block(p), 0);
    assert!(!w.has_chunk(p.containing_chunk_pos()));
    w.set_block(p, 12);
    assert_eq!(w.get_block(p), 12);
    assert!(w.has_chunk(ChunkPos { px: 1, py: -1, pz: 0 }));
    assert_eq!(w.get_block(BlockPos { px: 41, py: -5, pz: 3 }), 0);
    w.set_block(BlockPos { px: 41, py: -5, pz: 3 }, 4);
    assert_eq!(w.get_block(p), 12);
    assert_eq!(w.chunks.len(), 1);
}

#[test]
fn world_set_and_drop_chunk() {
    let mut w = World::new();
    let mut c = Chunk::new(ChunkPos { px: 0, py: 0, pz: 0 });
    c.set_block_at((1, 1, 1), 3);
    w.set_chunk(c);
    assert_eq!(w.get_block(BlockPos { px: 1, py: 1, pz: 1 }), 3);
    assert!(w.get_chunk(ChunkPos { px: 0, py: 0, pz: 0 }).is_some());
    // replacing the chunk
    w.set_chunk(Chunk::new(ChunkPos { px: 0, py: 0, pz: 0 }));
    assert_eq!(w.get_block(BlockPos { px: 1, py: 1, pz: 1 }), 0);
    assert_eq!(w.chunks.len(), 1);
    w.drop_chunk(ChunkPos { px: 0, py: 0, pz: 0 });
    assert!(w.get_chunk(ChunkPos { px: 0, py: 0, pz: 0 }).is_none());
    w.drop_chunk(ChunkPos { px: 5, py: 0, pz: 0 });
    assert_eq!(w.chunks.len(), 0);
}

#[test]
fn highest_opaque_block_update() {
    let mut w = World::new();
    // no chunk: the column record is created, nothing else happens
    assert!(!w.update_highest_opaque_block(ChunkPos { px: 0, py: 1, pz: 0 }));
    assert_eq!(w.highest_opaque_block.len(), 1);
    assert_eq!(w.highest_opaque_block[0].pos, ChunkPosXZ { px: 0, pz: 0 });
    assert_eq!(w.highest_opaque_block[0].y, vec![0i64; 1024]);
    w.set_chunk(Chunk::new(ChunkPos { px: 0, py: 1, pz: 0 }));
    let mut h = HighestOpaqueBlock::new(ChunkPosXZ { px: 0, pz: 0 });
    h.y[0] = 40;
    h.y[1] = 64;
    h.y[2] = 10;
    w.highest_opaque_block[0] = h;
    assert!(w.update_highest_opaque_block(ChunkPos { px: 0, py: 1, pz: 0 }));
    // heights inside the updated chunk (32..64) are reset
    assert_eq!(w.highest_opaque_block[0].y[0], 0);
    assert_eq!(w.highest_opaque_block[0].y[1], 64);
    assert_eq!(w.highest_opaque_block[0].y[2], 10);
}

#[test]
fn get_add_chunk_creates_then_finds() {
    let mut w = World::new();
    let pos = ChunkPos { px: 2, py: 0, pz: -1 };
    {
        let c = w.get_add_chunk(pos);
        assert_eq!(c.pos, pos);
        assert_eq!(c.get_block_at((1, 2, 3)), 0);
        c.set_block_at((1, 2, 3), 7);
    }
    assert_eq!(w.get_block(BlockPos { px: 65, py: 2, pz: -29 }), 7);
    assert_eq!(w.get_add_chunk(pos).get_block_at((1, 2, 3)), 7);
    assert_eq!(w.chunks.len(), 1);
}

#[test]
fn highest_opaque_block_records_highest_block() {
    let mut w = World::new();
    w.set_block(BlockPos { px: 0, py: 5, pz: 0 }, 1);
    w.set_block(BlockPos { px: 0, py: 2, pz: 0 }, 1);
    assert!(w.update_highest_opaque_block(ChunkPos { px: 0, py: 0, pz: 0 }));
    assert_eq!(w.highest_opaque_block[0].y[0], 5);
    assert_eq!(w.highest_opaque_block[0].y[1], 0);
    // block column x = 3, z = 7 is index 3 * 32 + 7
    w.set_block(BlockPos { px: 3, py: 40, pz: 7 }, 2);
    assert!(w.update_highest_opaque_block(ChunkPos { px: 0, py: 1, pz: 0 }));
    assert_eq!(w.highest_opaque_block[0].y[3 * 32 + 7], 40);
    assert_eq!(w.highest_opaque_block[0].y[0], 5);
}

#[test]
fn highest_opaque_block_rescans_lower_chunks() {
    let mut w = World::new();
    w.set_block(BlockPos { px: 0, py: 5, pz: 0 }, 1);
    w.set_block(BlockPos { px: 0, py: 40, pz: 0 }, 1);
    w.update_highest_opaque_block(ChunkPos { px: 0, py: 1, pz: 0 });
    assert_eq!(w.highest_opaque_block[0].y[0], 40);
    // the block at 40 goes: the column falls back to the block at 5 below
    w.set_block(BlockPos { px: 0, py: 40, pz: 0 }, 0);
    assert!(w.update_highest_opaque_block(ChunkPos { px: 0, py: 1, pz: 0 }));
    assert_eq!(w.highest_opaque_block[0].y[0], 5);
}
