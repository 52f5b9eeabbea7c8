use vstd::prelude::*;
use crate::chunk::{Chunk, ChunkPosXZ, CHUNK_SIZE, block_index};

verus! {

/// The ground heights of the columns of chunk columns, one height per block
/// column (x major, then z)
pub struct HeightMap {
    height_map: Vec<(ChunkPosXZ, Vec<i32>)>,
}

/// Whether some entry of the sequence is for chunk column `pos`
pub open spec fn has_column(s: Seq<(ChunkPosXZ, Vec<i32>)>, pos: ChunkPosXZ) -> bool {
    exists|i: int| 0 <= i < s.len() && #[trigger] s[i].0 == pos
}

impl HeightMap {
    /// The heights known, by chunk column
    pub closed spec fn view(&self) -> Map<ChunkPosXZ, Seq<i32>> {
        Map::new(
            |p: ChunkPosXZ| has_column(self.height_map@, p),
            |p: ChunkPosXZ| self.height_map@[choose|i: int| 0 <= i < self.height_map@.len() && #[trigger] self.height_map@[i].0 == p].1@,
        )
    }

    /// Each chunk column has at most one entry
    pub closed spec fn wf(&self) -> bool {
        forall|i: int, j: int|
            0 <= i < self.height_map@.len() && 0 <= j < self.height_map@.len() && i != j ==> #[trigger] self.height_map@[i].0
                != #[trigger] self.height_map@[j].0
    }

    /// No heights known
    pub fn new() -> (h: HeightMap)
        ensures
            h.wf(),
            h@ == Map::<ChunkPosXZ, Seq<i32>>::empty(),
    {
        let h = HeightMap { height_map: Vec::new() };
        assert(h@ =~= Map::<ChunkPosXZ, Seq<i32>>::empty());
        h
    }

    /// The heights of chunk column `pos`, if they are known
    pub fn get_chunk_height_map(&self, pos: ChunkPosXZ) -> (r: Option<&Vec<i32>>)
        requires
            self.wf(),
        ensures
            match r {
                Some(v) => self@.contains_key(pos) && v@ == self@[pos],
                None => !self@.contains_key(pos),
            },
    {
        let mut i: usize = 0;
        while i < self.height_map.len()
            invariant
                i <= self.height_map@.len(),
                self.wf(),
                forall|j: int| 0 <= j < i ==> #[trigger] self.height_map@[j].0 != pos,
            decreases self.height_map@.len() - i,
        {
            if self.height_map[i].0 == pos {
                proof {
                    assert(has_column(self.height_map@, pos));
                    let c = choose|c: int| 0 <= c < self.height_map@.len() && #[trigger] self.height_map@[c].0 == pos;
                    assert(c == i as int);
                }
                return Some(&self.height_map[i].1);
            }
            i = i + 1;
        }
        None
    }

    /// Record the heights of chunk column `pos`, unless they are known already
    pub fn insert_chunk_height_map(&mut self, pos: ChunkPosXZ, heights: Vec<i32>)
        requires
            old(self).wf(),
        ensures
            final(self).wf(),
            old(self)@.contains_key(pos) ==> final(self)@ == old(self)@,
            !old(self)@.contains_key(pos) ==> final(self)@ == old(self)@.insert(pos, heights@),
    {
        if self.get_chunk_height_map(pos).is_none() {
            let ghost before = self.height_map@;
            self.height_map.push((pos, heights));
            proof {
                let after = self.height_map@;
                assert forall|p: ChunkPosXZ| #[trigger] self@.contains_key(p) == old(self)@.insert(pos, heights@).contains_key(p) by {
                    if has_column(before, p) {
                        let c = choose|c: int| 0 <= c < before.len() && #[trigger] before[c].0 == p;
                        assert(after[c] == before[c]);
                    }
                    if has_column(after, p) && p != pos {
                        let c = choose|c: int| 0 <= c < after.len() && #[trigger] after[c].0 == p;
                        assert(after[c] == before[c]);
                    }
                    assert(after[before.len() as int].0 == pos);
                }
                assert forall|p: ChunkPosXZ| #[trigger] self@.contains_key(p) implies self@[p] == old(self)@.insert(pos, heights@)[p] by {
                    let c = choose|c: int| 0 <= c < after.len() && #[trigger] after[c].0 == p;
                    if p == pos {
                        assert(after[before.len() as int].0 == pos);
                        assert(c == before.len());
                    } else {
                        assert(after[c] == before[c]);
                        let c0 = choose|c0: int| 0 <= c0 < before.len() && #[trigger] before[c0].0 == p;
                        assert(c0 == c);
                    }
                }
                assert(self@ =~= old(self)@.insert(pos, heights@));
            }
        }
    }
}

/// The ids of the blocks that make the ground
#[derive(Debug, Clone, Copy, PartialEq, Eq, Structural)]
pub struct TopologyBlocks {
    pub stone: u16,
    pub grass: u16,
    pub dirt: u16,
    pub dirt_grass: u16,
    pub water: u16,
    pub sand: u16,
}

/// The block of the ground at height `y` of a column whose ground is at height
/// `hm`: water below sea level above the ground, nothing new above, and from the
/// surface down grass, grass over dirt, three blocks of dirt and then stone (sand
/// instead of grass and dirt below height 1)
pub open spec fn topology_block(b: TopologyBlocks, y: int, hm: int, old: u16) -> u16 {
    if y > hm {
        if y < 0 {
            b.water
        } else {
            old
        }
    } else if hm - y == 0 {
        if hm >= 1 { b.grass } else { b.sand }
    } else if hm - y == 1 {
        if hm >= 1 { b.dirt_grass } else { b.sand }
    } else if hm - y <= 4 {
        if hm >= 1 { b.dirt } else { b.sand }
    } else {
        b.stone
    }
}

/// Height of the lowest layer of a chunk at vertical position `py`, as the
/// ground generation computes it
pub open spec fn chunk_floor(py: i64) -> int {
    32 * (py as i32)
}

/// The heights compared while generating the ground of a chunk fit in an `i32`
pub open spec fn topology_fits(py: i64, h: Seq<i32>) -> bool {
    &&& i32::MIN <= chunk_floor(py)
    &&& chunk_floor(py) + 31 <= i32::MAX
    &&& forall|c: int| 0 <= c < h.len() ==> (#[trigger] h[c] >= chunk_floor(py) ==> h[c] - chunk_floor(py) <= i32::MAX)
}

/// Generate the topology of the chunk from the ground heights of its columns
pub fn generate_chunk_topology(chunk: &mut Chunk, blocks: &TopologyBlocks, h: &Vec<i32>)
    requires
        old(chunk).wf(),
        h@.len() == 1024,
        topology_fits(old(chunk).pos.py, h@),
    ensures
        final(chunk).wf(),
        final(chunk).pos == old(chunk).pos,
        forall|i: u32, j: u32, k: u32|
            i < 32 && j < 32 && k < 32 ==> #[trigger] final(chunk).block_at(i, j, k) == topology_block(
                *blocks,
                j + chunk_floor(old(chunk).pos.py),
                h@[i * 32 + k] as int,
                old(chunk).block_at(i, j, k),
            ),
{
    let ghost c0 = *chunk;
    let ghost floor = chunk_floor(c0.pos.py);
    let mut i: u32 = 0;
    while i < CHUNK_SIZE
        invariant
            i <= 32,
            chunk.wf(),
            chunk.pos == c0.pos,
            h@.len() == 1024,
            topology_fits(c0.pos.py, h@),
            floor == chunk_floor(c0.pos.py),
            forall|a: u32, b: u32, c: u32|
                a < 32 && b < 32 && c < 32 ==> #[trigger] chunk.block_at(a, b, c) == (if a < i {
                    topology_block(*blocks, b + floor, h@[a * 32 + c] as int, c0.block_at(a, b, c))
                } else {
                    c0.block_at(a, b, c)
                }),
        decreases 32 - i,
    {
        let mut k: u32 = 0;
        while k < CHUNK_SIZE
            invariant
                i < 32,
                k <= 32,
                chunk.wf(),
                chunk.pos == c0.pos,
                h@.len() == 1024,
                topology_fits(c0.pos.py, h@),
                floor == chunk_floor(c0.pos.py),
                forall|a: u32, b: u32, c: u32|
                    a < 32 && b < 32 && c < 32 ==> #[trigger] chunk.block_at(a, b, c) == (if a < i || (a == i && c < k) {
                        topology_block(*blocks, b + floor, h@[a * 32 + c] as int, c0.block_at(a, b, c))
                    } else {
                        c0.block_at(a, b, c)
                    }),
            decreases 32 - k,
        {
            let hm = h[(i * CHUNK_SIZE + k) as usize];
            let mut j: u32 = 0;
            while j < CHUNK_SIZE
                invariant
                    i < 32,
                    k < 32,
                    j <= 32,
                    chunk.wf(),
                    chunk.pos == c0.pos,
                    h@.len() == 1024,
                    hm == h@[i * 32 + k],
                    topology_fits(c0.pos.py, h@),
                    floor == chunk_floor(c0.pos.py),
                    forall|a: u32, b: u32, c: u32|
                        a < 32 && b < 32 && c < 32 ==> #[trigger] chunk.block_at(a, b, c) == (if a < i || (a == i && c < k) || (a == i
                            && c == k && b < j) {
                            topology_block(*blocks, b + floor, h@[a * 32 + c] as int, c0.block_at(a, b, c))
                        } else {
                            c0.block_at(a, b, c)
                        }),
                ensures
                    chunk.wf(),
                    chunk.pos == c0.pos,
                    forall|a: u32, b: u32, c: u32|
                        a < 32 && b < 32 && c < 32 ==> #[trigger] chunk.block_at(a, b, c) == (if a < i || (a == i && c < k + 1) {
                            topology_block(*blocks, b + floor, h@[a * 32 + c] as int, c0.block_at(a, b, c))
                        } else {
                            c0.block_at(a, b, c)
                        }),
                decreases 32 - j,
            {
                let y = j as i32 + (CHUNK_SIZE as i32) * (chunk.pos.py as i32);
                if y > hm && y >= 0 {
                    proof {
                        assert forall|a: u32, b: u32, c: u32|
                            a < 32 && b < 32 && c < 32 implies #[trigger] chunk.block_at(a, b, c) == (if a < i || (a == i && c
                                < k + 1) {
                                topology_block(*blocks, b + floor, h@[a * 32 + c] as int, c0.block_at(a, b, c))
                            } else {
                                c0.block_at(a, b, c)
                            }) by {
                            if a == i && c == k && b >= j {
                                assert(b + floor > hm && b + floor >= 0);
                            }
                        }
                    }
                    break;
                }
                let block = if y > hm {
                    blocks.water
                } else {
                    let d = hm - y;
                    if d == 0 {
                        if hm >= 1 { blocks.grass } else { blocks.sand }
                    } else if d == 1 {
                        if hm >= 1 { blocks.dirt_grass } else { blocks.sand }
                    } else if d <= 4 {
                        if hm >= 1 { blocks.dirt } else { blocks.sand }
                    } else {
                        blocks.stone
                    }
                };
                let ghost before = *chunk;
                chunk.set_block_at((i, j, k), block);
                proof {
                    assert(block == topology_block(*blocks, j + floor, hm as int, c0.block_at(i, j, k)));
                    assert forall|a: u32, b: u32, c: u32|
                        a < 32 && b < 32 && c < 32 implies #[trigger] chunk.block_at(a, b, c) == (if a < i || (a == i && c < k)
                            || (a == i && c == k && b < j + 1) {
                            topology_block(*blocks, b + floor, h@[a * 32 + c] as int, c0.block_at(a, b, c))
                        } else {
                            c0.block_at(a, b, c)
                        }) by {
                        assert(before.block_at(a, b, c) == before.block_at(a, b, c));
                        assert(0 <= block_index(a, b, c) < 32768);
                        if a != i || b != j || c != k {
                            assert(block_index(a, b, c) != block_index(i, j, k));
                            assert(chunk.block_at(a, b, c) == before.block_at(a, b, c));
                        } else {
                            assert(chunk.block_at(a, b, c) == block);
                        }
                    }
                }
                j = j + 1;
            }
            k = k + 1;
        }
        i = i + 1;
    }
}

/// Whether the heights compared while generating the ground of a chunk at
/// vertical position `py` fit in an `i32`
pub fn topology_fits_check(py: i64, h: &Vec<i32>) -> (b: bool)
    ensures
        b == topology_fits(py, h@),
{
    let floor = 32 * (py as i32 as i64);
    if floor < i32::MIN as i64 || floor + 31 > i32::MAX as i64 {
        return false;
    }
    let mut c: usize = 0;
    while c < h.len()
        invariant
            c <= h@.len(),
            floor == chunk_floor(py),
            i32::MIN <= chunk_floor(py),
            chunk_floor(py) + 31 <= i32::MAX,
            forall|e: int| 0 <= e < c ==> (#[trigger] h@[e] >= chunk_floor(py) ==> h@[e] - chunk_floor(py) <= i32::MAX),
        decreases h@.len() - c,
    {
        let v = h[c] as i64;
        if v >= floor && v - floor > i32::MAX as i64 {
            return false;
        }
        c = c + 1;
    }
    true
}

} // verus!
