use voxel_rs::chunk::{Chunk, ChunkPos, ChunkPosXZ, CompressedChunk, CHUNK_SIZE};

#[test]
fn chunk_new_is_air() {
    let c = Chunk::new(ChunkPos { px: 1, py: -2, pz: 3 });
    assert_eq!(c.pos, ChunkPos { px: 1, py: -2, pz: 3 });
    assert_eq!(c.get_block_at((0, 0, 0)), 0);
    assert_eq!(c.get_block_at((31, 31, 31)), 0);
    assert_eq!(CHUNK_SIZE, 32);
}

#[test]
fn chunk_set_then_get() {
    let mut c = Chunk::new(ChunkPos { px: 0, py: 0, pz: 0 });
    c.set_block_at((1, 2, 3), 7);
    assert_eq!(c.get_block_at((1, 2, 3)), 7);
    assert_eq!(c.get_block_at((1, 2, 4)), 0);
    assert_eq!(c.data[1 * 1024 + 2 * 32 + 3], 7);
}

#[test]
fn chunk_pos_offsets_and_distance() {
    let p = ChunkPos { px: 1, py: 2, pz: 3 };
    assert_eq!(p.offset(1, -2, 3), ChunkPos { px: 2, py: 0, pz: 6 });
    assert_eq!(p.offset_by_pos(ChunkPos { px: -1, py: -1, pz: -1 }), ChunkPos { px: 0, py: 1, pz: 2 });
    assert_eq!(p.squared_euclidian_distance(ChunkPos { px: 0, py: 0, pz: 0 }), 14);
    assert_eq!(ChunkPos { px: -3, py: 0, pz: 4 }.squared_euclidian_distance(ChunkPos { px: 0, py: 0, pz: 0 }), 25);
    let q = ChunkPosXZ { px: 5, pz: -5 };
    assert_eq!(q.offset(1, 1), ChunkPosXZ { px: 6, pz: -4 });
    assert_eq!(q.offset_by_pos(ChunkPosXZ { px: -5, pz: 5 }), ChunkPosXZ { px: 0, pz: 0 });
    assert_eq!(ChunkPosXZ::from_chunk_pos(p), ChunkPosXZ { px: 1, pz: 3 });
}

#[test]
fn compression_of_empty_chunk_is_one_run() {
    let c = Chunk::new(ChunkPos { px: 0, py: 0, pz: 0 });
    let cc = CompressedChunk::from_chunk(&c);
    assert_eq!(cc.data, vec![(32768u16, 0u16)]);
    assert_eq!(cc.pos, c.pos);
}

#[test]
fn compression_roundtrip() {
    let mut c = Chunk::new(ChunkPos { px: 4, py: 5, pz: 6 });
    c.set_block_at((0, 0, 0), 3);
    c.set_block_at((0, 0, 1), 3);
    c.set_block_at((10, 4, 2), 9);
    c.set_block_at((31, 31, 31), 1);
    let cc = CompressedChunk::from_chunk(&c);
    assert_eq!(cc.data[0], (2, 3));
    assert_eq!(cc.data[cc.data.len() - 1], (1, 1));
    assert_eq!(cc.data.len(), 5);
    let back = cc.to_chunk();
    assert_eq!(back.pos, c.pos);
    assert_eq!(back.data, c.data);
}

#[test]
fn decompression_pads_with_air() {
    let cc = CompressedChunk { pos: ChunkPos { px: 0, py: 0, pz: 0 }, data: vec![(3, 5), (2, 6)] };
    let c = cc.to_chunk();
    assert_eq!(c.get_block_at((0, 0, 0)), 5);
    assert_eq!(c.get_block_at((0, 0, 2)), 5);
    assert_eq!(c.get_block_at((0, 0, 3)), 6);
    assert_eq!(c.get_block_at((0, 0, 4)), 6);
    assert_eq!(c.get_block_at((0, 0, 5)), 0);
    assert_eq!(c.data.len(), 32768);
}
