use voxel_rs::chunk::{Chunk, ChunkPos, ChunkPosXZ};
use voxel_rs::light::{compute_light, LightData};
use voxel_rs::world::HighestOpaqueBlock;

fn heights(h: i64) -> Vec<HighestOpaqueBlock> {
    let mut v = Vec::new();
    for i in 0..9 {
        let mut b = HighestOpaqueBlock::new(ChunkPosXZ { px: i / 3 - 1, pz: i % 3 - 1 });
        for k in 0..1024 {
            b.y[k] = h;
        }
        v.push(b);
    }
    v
}

fn only_middle(c: &Chunk) -> Vec<Option<&Chunk>> {
    let mut v: Vec<Option<&Chunk>> = vec![None; 27];
    v[13] = Some(c);
    v
}

#[test]
fn light_data_starts_dark() {
    let l = LightData::new();
    assert_eq!(l.light_level.len(), 32768);
    assert!(l.light_level.iter().all(|&x| x == 0));
}

#[test]
fn open_sky_lights_middle_full() {
    // every cell is open to the sky, the middle chunk's own cells too
    let c = Chunk::new(ChunkPos { px: 0, py: 0, pz: 0 });
    let l = compute_light(only_middle(&c), heights(-1000));
    assert_eq!(l.light_level.len(), 32768);
    assert!(l.light_level.iter().all(|&x| x == 15));
}

#[test]
fn sky_above_ground_level_zero() {
    // cells above height 0 see the sky; the bottom layer is one step below them
    let c = Chunk::new(ChunkPos { px: 0, py: 0, pz: 0 });
    let l = compute_light(only_middle(&c), heights(0));
    for i in 0..32 {
        for j in 0..32 {
            for k in 0..32 {
                let expected = if j == 0 { 14 } else { 15 };
                assert_eq!(l.light_level[i * 1024 + j * 32 + k], expected);
            }
        }
    }
}

#[test]
fn solid_block_is_dark_and_shades_below() {
    let mut c = Chunk::new(ChunkPos { px: 0, py: 0, pz: 0 });
    c.set_block_at((7, 20, 9), 1);
    let mut hobs = heights(-1000);
    // the column of the block has its highest opaque block at height 20
    hobs[4].y[7 * 32 + 9] = 20;
    let l = compute_light(only_middle(&c), hobs);
    assert_eq!(l.light_level[7 * 1024 + 20 * 32 + 9], 0);
    assert_eq!(l.light_level[7 * 1024 + 21 * 32 + 9], 15);
    // just below the block, lit from the open neighbours around it
    assert_eq!(l.light_level[7 * 1024 + 19 * 32 + 9], 14);
    assert_eq!(l.light_level[8 * 1024 + 19 * 32 + 9], 15);
}

#[test]
fn nothing_open_stays_dark() {
    let c = Chunk::new(ChunkPos { px: 0, py: 0, pz: 0 });
    let l = compute_light(only_middle(&c), heights(1000));
    assert!(l.light_level.iter().all(|&x| x == 0));
}

#[test]
fn light_fades_below_the_sky() {
    // the sky opens above height 40: the top chunk layer is lit from height 41 up,
    // the middle chunk (heights 0..32) receives light fading downwards
    let c = Chunk::new(ChunkPos { px: 0, py: 0, pz: 0 });
    let l = compute_light(only_middle(&c), heights(40));
    // block (5, 31, 5) of the middle chunk is at height 31, ten blocks below height 41
    assert_eq!(l.light_level[5 * 1024 + 31 * 32 + 5], 5);
    assert_eq!(l.light_level[5 * 1024 + 30 * 32 + 5], 4);
    assert_eq!(l.light_level[5 * 1024 + 22 * 32 + 5], 0);
}
