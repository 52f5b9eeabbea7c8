use voxel_rs::worldgen::perlin::{hash, rand_pos_int};

#[test]
fn hash_values() {
    assert_eq!(hash(0), 0);
    assert_eq!(hash(1), 638944058);
    assert_eq!(hash(42), 1048655327);
    assert_eq!(hash(-7), 1109667159);
}

#[test]
fn rand_pos_int_values() {
    assert_eq!(rand_pos_int(0, 0, 0, 0), 0);
    assert_eq!(rand_pos_int(1, 2, 3, 4), 671906697);
}

use std::collections::HashSet;
use voxel_rs::chunk::{Chunk, ChunkPos, ChunkPosXZ};
use voxel_rs::world::{BlockPos, WorldGenerator};
use voxel_rs::worldgen::decorator::{Decorator, DecoratorPass};
use voxel_rs::worldgen::perlin::rand_pos_fits_check;
use voxel_rs::worldgen::topology::{generate_chunk_topology, topology_fits_check, HeightMap, TopologyBlocks};
use voxel_rs::worldgen::{tree_passes, BlockToPlace, DebugWorldGenerator, DefaultWorldGenerator};

fn ground_blocks() -> TopologyBlocks {
    TopologyBlocks { stone: 4, grass: 1, dirt: 5, dirt_grass: 6, water: 7, sand: 8 }
}

#[test]
fn decorator_pass_new_accepts_air_and_itself() {
    let p = DecoratorPass::new(5);
    assert_eq!(p.block_type, 5);
    assert_eq!(p.block_whitelist.len(), 2);
    assert!(p.block_whitelist.contains(&0));
    assert!(p.block_whitelist.contains(&5));
    assert!(p.block_non_blocking.is_empty());
    assert!(p.block_pos.is_empty());
}

#[test]
fn block_to_place_new() {
    let b = BlockToPlace::new((1, -2, 3), 9);
    assert_eq!(b.pos, BlockPos { px: 1, py: -2, pz: 3 });
    assert_eq!(b.id, 9);
}

#[test]
fn height_map_keeps_first_heights() {
    let mut h = HeightMap::new();
    let col = ChunkPosXZ { px: 2, pz: -1 };
    assert!(h.get_chunk_height_map(col).is_none());
    h.insert_chunk_height_map(col, vec![3; 1024]);
    assert_eq!(h.get_chunk_height_map(col).unwrap()[17], 3);
    h.insert_chunk_height_map(col, vec![9; 1024]);
    assert_eq!(h.get_chunk_height_map(col).unwrap()[17], 3);
    assert!(h.get_chunk_height_map(ChunkPosXZ { px: 2, pz: 0 }).is_none());
}

#[test]
fn topology_above_sea_level() {
    let mut c = Chunk::new(ChunkPos { px: 0, py: 0, pz: 0 });
    let h = vec![3; 1024];
    generate_chunk_topology(&mut c, &ground_blocks(), &h);
    assert_eq!(c.get_block_at((4, 4, 7)), 0);
    assert_eq!(c.get_block_at((4, 3, 7)), 1);
    assert_eq!(c.get_block_at((4, 2, 7)), 6);
    assert_eq!(c.get_block_at((4, 1, 7)), 5);
    assert_eq!(c.get_block_at((4, 0, 7)), 5);
    assert_eq!(c.get_block_at((31, 31, 31)), 0);
}

#[test]
fn topology_below_sea_level() {
    let mut c = Chunk::new(ChunkPos { px: 0, py: -1, pz: 0 });
    let h = vec![-3; 1024];
    generate_chunk_topology(&mut c, &ground_blocks(), &h);
    // y = -1 and y = -2 are above the ground but below sea level
    assert_eq!(c.get_block_at((0, 31, 0)), 7);
    assert_eq!(c.get_block_at((0, 30, 0)), 7);
    // the surface and the layers below it are sand under water
    assert_eq!(c.get_block_at((0, 29, 0)), 8);
    assert_eq!(c.get_block_at((0, 27, 0)), 8);
    assert_eq!(c.get_block_at((0, 25, 0)), 8);
    assert_eq!(c.get_block_at((0, 24, 0)), 4);
    assert_eq!(c.get_block_at((0, 0, 0)), 4);
}

#[test]
fn topology_deep_chunk_is_stone_and_dirt() {
    let mut c = Chunk::new(ChunkPos { px: 3, py: -1, pz: 0 });
    let h = vec![3; 1024];
    generate_chunk_topology(&mut c, &ground_blocks(), &h);
    // y = -1 is four blocks below the surface at 3
    assert_eq!(c.get_block_at((2, 31, 9)), 5);
    assert_eq!(c.get_block_at((2, 30, 9)), 4);
}

#[test]
fn topology_fits_bounds() {
    assert!(topology_fits_check(0, &vec![100; 1024]));
    assert!(topology_fits_check(3, &vec![i32::MAX; 4]));
    assert!(!topology_fits_check(-1, &vec![i32::MAX; 4]));
    assert!(!topology_fits_check(i64::from(i32::MAX), &vec![0; 4]));
}

#[test]
fn rand_pos_fits_on_small_inputs() {
    assert!(rand_pos_fits_check(0, 0, 0, 0));
    assert!(!rand_pos_fits_check(i32::MAX, 0, 0, 1));
}

#[test]
fn debug_generator_stone_above_zero() {
    let mut g = DebugWorldGenerator;
    let c = g.generate_chunk(ChunkPos { px: 5, py: 0, pz: -2 }, &ground_blocks());
    assert_eq!(c.pos, ChunkPos { px: 5, py: 0, pz: -2 });
    assert_eq!(c.get_block_at((3, 0, 3)), 0);
    assert_eq!(c.get_block_at((3, 1, 3)), 4);
    assert_eq!(c.get_block_at((31, 31, 31)), 4);
    let below = g.generate_chunk(ChunkPos { px: 5, py: -1, pz: -2 }, &ground_blocks());
    assert_eq!(below.get_block_at((3, 31, 3)), 0);
}

#[test]
fn tree_shape() {
    let (leaves, wood) = tree_passes(2, 3);
    assert_eq!(leaves.block_type, 2);
    assert_eq!(wood.block_type, 3);
    assert_eq!(wood.block_pos.len(), 6);
    for (n, p) in wood.block_pos.iter().enumerate() {
        assert_eq!(*p, BlockPos { px: 0, py: n as i64 + 1, pz: 0 });
    }
    assert_eq!(leaves.block_pos.len(), 24 * 3 + 8 + 9);
    assert_eq!(leaves.block_pos[0], BlockPos { px: -2, py: 3, pz: -2 });
    assert_eq!(*leaves.block_pos.last().unwrap(), BlockPos { px: 1, py: 7, pz: 1 });
    assert!(leaves.block_pos.contains(&BlockPos { px: 0, py: 7, pz: 0 }));
    assert!(!leaves.block_pos.contains(&BlockPos { px: 0, py: 6, pz: 0 }));
    assert!(wood.block_whitelist.contains(&2));
    assert!(!leaves.block_whitelist.contains(&3));
}

fn region(origin: ChunkPos) -> Vec<Chunk> {
    let mut chunks = Vec::new();
    for idx in 0..27i64 {
        chunks.push(Chunk::new(ChunkPos { px: origin.px + idx / 9, py: origin.py + idx / 3 % 3, pz: origin.pz + idx % 3 }));
    }
    chunks
}

#[test]
fn decorate_without_tries_changes_nothing() {
    let mut chunks = region(ChunkPos { px: -1, py: -1, pz: -1 });
    let mut pass = DecoratorPass::new(9);
    pass.block_pos.push(BlockPos { px: 0, py: 0, pz: 0 });
    let mut start = HashSet::new();
    start.insert(0);
    let d = Decorator { number_of_try: 0, block_start_whitelist: start, pass: vec![pass] };
    DefaultWorldGenerator::decorate_chunk(&mut chunks, &d);
    for c in chunks.iter() {
        for x in 0..32 {
            assert_eq!(c.get_block_at((x, x, 31 - x)), 0);
        }
    }
}

#[test]
fn decorate_places_at_the_drawn_start() {
    let origin = ChunkPos { px: -1, py: -1, pz: -1 };
    let mut chunks = region(origin);
    let mut pass = DecoratorPass::new(9);
    pass.block_pos.push(BlockPos { px: 0, py: 0, pz: 0 });
    let mut start = HashSet::new();
    start.insert(0);
    let d = Decorator { number_of_try: 1, block_start_whitelist: start, pass: vec![pass] };
    DefaultWorldGenerator::decorate_chunk(&mut chunks, &d);
    // every try starts on air and succeeds; only the try of the middle chunk
    // (at 0, 0, 0) falls in it
    let tx = voxel_rs::worldgen::perlin::rand_pos_int(0, 0, 0, 0).rem_euclid(32) as u32;
    let ty = voxel_rs::worldgen::perlin::rand_pos_int(0, 0, 0, 1).rem_euclid(32) as u32;
    let tz = voxel_rs::worldgen::perlin::rand_pos_int(0, 0, 0, 2).rem_euclid(32) as u32;
    let center = &chunks[13];
    let mut placed = 0;
    for x in 0..32 {
        for y in 0..32 {
            for z in 0..32 {
                if center.get_block_at((x, y, z)) == 9 {
                    placed += 1;
                    assert_eq!((x, y, z), (tx, ty, tz));
                }
            }
        }
    }
    assert_eq!(placed, 1);
    assert_eq!(chunks[0].get_block_at((0, 0, 0)), 0);
    assert_eq!(chunks[26].pos, ChunkPos { px: 1, py: 1, pz: 1 });
}

fn ready_generator(h: i32) -> DefaultWorldGenerator {
    let mut g = DefaultWorldGenerator::new(1, 2, 3);
    for x in -3..=3 {
        for z in -3..=3 {
            g.insert_height_map(ChunkPosXZ { px: x, pz: z }, vec![h; 1024]);
        }
    }
    g
}

#[test]
fn default_generator_needs_heights() {
    let g = DefaultWorldGenerator::new(1, 2, 3);
    assert!(!g.can_generate(ChunkPos { px: 0, py: 0, pz: 0 }));
    let g = ready_generator(10);
    assert!(g.has_height_map(ChunkPosXZ { px: 1, pz: -1 }));
    assert!(g.can_generate(ChunkPos { px: 0, py: 0, pz: 0 }));
    assert!(!g.can_generate(ChunkPos { px: i64::MAX, py: 0, pz: 0 }));
}

#[test]
fn default_generator_keeps_the_ground() {
    let mut g = ready_generator(10);
    let pos = ChunkPos { px: 0, py: 0, pz: 0 };
    let c = g.generate_chunk(pos, &ground_blocks());
    assert_eq!(c.pos, pos);
    for x in 0..32 {
        for z in 0..32 {
            assert_eq!(c.get_block_at((x, 10, z)), 1);
            assert_eq!(c.get_block_at((x, 9, z)), 6);
            assert_eq!(c.get_block_at((x, 7, z)), 5);
            assert_eq!(c.get_block_at((x, 5, z)), 4);
            assert_eq!(c.get_block_at((x, 0, z)), 4);
        }
    }
    // the chunks around are stored for the next generations
    assert!(g.is_pregenerated(ChunkPos { px: 1, py: 1, pz: 1 }));
    assert!(g.is_pregenerated(pos));
    assert!(!g.is_pregenerated(ChunkPos { px: 2, py: 0, pz: 0 }));
}

#[test]
fn default_generator_grows_trees_from_grass() {
    let mut g = ready_generator(10);
    let c = g.generate_chunk(ChunkPos { px: 0, py: 0, pz: 0 }, &ground_blocks());
    for x in 0..32 {
        for y in 0..32 {
            for z in 0..32 {
                let b = c.get_block_at((x, y, z));
                if b == 3 {
                    // trunks stand on the grass at height 10
                    assert!(y >= 11 && y <= 16);
                }
                if y > 10 {
                    assert!(b == 0 || b == 2 || b == 3);
                }
            }
        }
    }
    // the tries of the chunk itself that start on its grass grow a trunk
    for l in 0..32 {
        let t = |axis: i32| voxel_rs::worldgen::perlin::rand_pos_int(0, 0, 0, 3 * l + axis).rem_euclid(32) as u32;
        if t(1) == 10 {
            for y in 11..=16 {
                assert_eq!(c.get_block_at((t(0), y, t(2))), 3);
            }
        }
    }
}

#[test]
fn default_generator_same_chunk_whatever_came_before() {
    let blocks = ground_blocks();
    let pos = ChunkPos { px: 0, py: 0, pz: 0 };
    let mut fresh = ready_generator(10);
    let first = fresh.generate_chunk(pos, &blocks);
    let mut used = ready_generator(10);
    used.generate_chunk(ChunkPos { px: 1, py: 0, pz: 0 }, &blocks);
    used.generate_chunk(ChunkPos { px: -1, py: 1, pz: 0 }, &blocks);
    let second = used.generate_chunk(pos, &blocks);
    let again = used.generate_chunk(pos, &blocks);
    assert_eq!(first.data, second.data);
    assert_eq!(first.data, again.data);
}
