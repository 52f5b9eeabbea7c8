use vstd::prelude::*;

verus! {

/// Number of blocks along an axis of the chunk
pub const CHUNK_SIZE: u32 = 32;

/// Number of blocks in a chunk
pub open spec fn chunk_volume() -> int {
    32768int
}

/// Identifier of a block type
pub type BlockId = u16;

/// Position of a chunk in the world
#[derive(Debug, Clone, Copy, PartialEq, Eq, Structural, Hash)]
pub struct ChunkPos {
    pub px: i64,
    pub py: i64,
    pub pz: i64,
}

impl ChunkPos {
    /// Build a chunk position from its coordinates
    pub fn from_coords(px: i64, py: i64, pz: i64) -> (r: ChunkPos)
        ensures
            r.px == px && r.py == py && r.pz == pz,
    {
        ChunkPos { px, py, pz }
    }

    /// Offset the current chunk position by some amount of chunks
    pub fn offset(self, dx: i64, dy: i64, dz: i64) -> (r: ChunkPos)
        requires
            i64::MIN <= self.px + dx <= i64::MAX,
            i64::MIN <= self.py + dy <= i64::MAX,
            i64::MIN <= self.pz + dz <= i64::MAX,
        ensures
            r.px == self.px + dx,
            r.py == self.py + dy,
            r.pz == self.pz + dz,
    {
        ChunkPos { px: self.px + dx, py: self.py + dy, pz: self.pz + dz }
    }

    /// Offset the current chunk position by some amount of chunks
    pub fn offset_by_pos(self, other: ChunkPos) -> (r: ChunkPos)
        requires
            i64::MIN <= self.px + other.px <= i64::MAX,
            i64::MIN <= self.py + other.py <= i64::MAX,
            i64::MIN <= self.pz + other.pz <= i64::MAX,
        ensures
            r.px == self.px + other.px,
            r.py == self.py + other.py,
            r.pz == self.pz + other.pz,
    {
        self.offset(other.px, other.py, other.pz)
    }

    /// Squared euclidian distance between two chunk positions, as a mathematical integer
    pub open spec fn spec_squared_distance(self, other: ChunkPos) -> int {
        (self.px - other.px) * (self.px - other.px) + (self.py - other.py) * (self.py
            - other.py) + (self.pz - other.pz) * (self.pz - other.pz)
    }

    /// The coordinate differences and their squares stay within the machine integers
    pub open spec fn distance_fits(self, other: ChunkPos) -> bool {
        &&& i64::MIN <= self.px - other.px <= i64::MAX
        &&& i64::MIN <= self.py - other.py <= i64::MAX
        &&& i64::MIN <= self.pz - other.pz <= i64::MAX
        &&& (self.px - other.px) * (self.px - other.px) <= i64::MAX
        &&& (self.py - other.py) * (self.py - other.py) <= i64::MAX
        &&& (self.pz - other.pz) * (self.pz - other.pz) <= i64::MAX
        &&& self.spec_squared_distance(other) <= u64::MAX
    }

    /// Squared euclidian distance to other chunk
    pub fn squared_euclidian_distance(self, other: ChunkPos) -> (d: u64)
        requires
            self.distance_fits(other),
        ensures
            d == self.spec_squared_distance(other),
    {
        let dx = self.px - other.px;
        let dy = self.py - other.py;
        let dz = self.pz - other.pz;
        proof {
            lemma_square_nonneg(dx as int);
            lemma_square_nonneg(dy as int);
            lemma_square_nonneg(dz as int);
        }
        let sx = (dx * dx) as u64;
        let sy = (dy * dy) as u64;
        let sz = (dz * dz) as u64;
        sx + sy + sz
    }
}

/// A square is never negative
pub proof fn lemma_square_nonneg(x: int)
    ensures
        x * x >= 0,
{
    assert(x * x >= 0) by (nonlinear_arith);
}

/// Chunk position but only along XZ axis, used for highest block position
#[derive(Debug, Clone, Copy, PartialEq, Eq, Structural, Hash)]
pub struct ChunkPosXZ {
    pub px: i64,
    pub pz: i64,
}

impl ChunkPosXZ {
    /// Offset the current chunk position by some amount of chunks
    pub fn offset(self, dx: i64, dz: i64) -> (r: ChunkPosXZ)
        requires
            i64::MIN <= self.px + dx <= i64::MAX,
            i64::MIN <= self.pz + dz <= i64::MAX,
        ensures
            r.px == self.px + dx,
            r.pz == self.pz + dz,
    {
        ChunkPosXZ { px: self.px + dx, pz: self.pz + dz }
    }

    /// Offset the current chunk position by some amount of chunks
    pub fn offset_by_pos(self, other: ChunkPosXZ) -> (r: ChunkPosXZ)
        requires
            i64::MIN <= self.px + other.px <= i64::MAX,
            i64::MIN <= self.pz + other.pz <= i64::MAX,
        ensures
            r.px == self.px + other.px,
            r.pz == self.pz + other.pz,
    {
        self.offset(other.px, other.pz)
    }

    /// The column of a chunk position
    pub fn from_chunk_pos(chunk_pos: ChunkPos) -> (r: ChunkPosXZ)
        ensures
            r.px == chunk_pos.px && r.pz == chunk_pos.pz,
    {
        ChunkPosXZ { px: chunk_pos.px, pz: chunk_pos.pz }
    }
}

/// Index of a block position inside the flat block storage of a chunk
pub open spec fn block_index(px: u32, py: u32, pz: u32) -> int {
    px * 1024 + py * 32 + pz
}

/// A chunk
#[derive(Debug, Clone)]
pub struct Chunk {
    pub pos: ChunkPos,
    pub data: Vec<BlockId>,
}

impl Chunk {
    /// The block storage has one entry per block of the chunk
    pub open spec fn wf(&self) -> bool {
        self.blocks().len() == chunk_volume()
    }

    /// The blocks of the chunk, in storage order (x major, then y, then z)
    pub open spec fn blocks(&self) -> Seq<BlockId> {
        self.data@
    }

    /// The block stored at a position of the chunk
    pub open spec fn block_at(&self, px: u32, py: u32, pz: u32) -> BlockId {
        self.blocks()[block_index(px, py, pz)]
    }

    /// Create a new empty chunk
    pub fn new(pos: ChunkPos) -> (c: Chunk)
        ensures
            c.wf(),
            c.pos == pos,
            forall|i: int| 0 <= i < chunk_volume() ==> #[trigger] c.blocks()[i] == 0,
    {
        let mut data: Vec<BlockId> = Vec::with_capacity(32768);
        let mut i: usize = 0;
        while i < 32768
            invariant
                i <= 32768,
                data@.len() == i,
                forall|k: int| 0 <= k < i ==> #[trigger] data@[k] == 0,
            decreases 32768 - i,
        {
            data.push(0);
            i = i + 1;
        }
        Chunk { pos, data }
    }

    /// Get block at some position
    pub fn get_block_at(&self, p: (u32, u32, u32)) -> (b: BlockId)
        requires
            self.wf(),
            block_index(p.0, p.1, p.2) < chunk_volume(),
        ensures
            b == self.block_at(p.0, p.1, p.2),
    {
        let (px, py, pz) = p;
        self.data[(px * CHUNK_SIZE * CHUNK_SIZE + py * CHUNK_SIZE + pz) as usize]
    }

    /// Set block at some position
    pub fn set_block_at(&mut self, p: (u32, u32, u32), block: BlockId)
        requires
            old(self).wf(),
            block_index(p.0, p.1, p.2) < chunk_volume(),
        ensures
            final(self).wf(),
            final(self).pos == old(self).pos,
            final(self).blocks() == old(self).blocks().update(block_index(p.0, p.1, p.2), block),
    {
        let (px, py, pz) = p;
        let idx = (px * CHUNK_SIZE * CHUNK_SIZE + py * CHUNK_SIZE + pz) as usize;
        self.data.set(idx, block);
    }
}

/// The blocks described by a sequence of runs `(length, block)`
pub open spec fn runs_flatten(runs: Seq<(u16, BlockId)>) -> Seq<BlockId>
    decreases runs.len(),
{
    if runs.len() == 0 {
        Seq::empty()
    } else {
        runs_flatten(runs.drop_last()) + Seq::new(runs.last().0 as nat, |k: int| runs.last().1)
    }
}

/// Total number of blocks described by a sequence of runs
pub open spec fn runs_total(runs: Seq<(u16, BlockId)>) -> int
    decreases runs.len(),
{
    if runs.len() == 0 {
        0
    } else {
        runs_total(runs.drop_last()) + runs.last().0
    }
}

/// Every run is non-empty and two consecutive runs hold different blocks
pub open spec fn runs_canonical(runs: Seq<(u16, BlockId)>) -> bool {
    &&& forall|k: int| 0 <= k < runs.len() ==> #[trigger] runs[k].0 > 0
    &&& forall|k: int| 0 < k < runs.len() ==> #[trigger] runs[k].1 != runs[k - 1].1
}

/// The length of the flattened runs is their total
pub proof fn lemma_runs_len(runs: Seq<(u16, BlockId)>)
    ensures
        runs_flatten(runs).len() == runs_total(runs),
        runs_total(runs) >= 0,
    decreases runs.len(),
{
    if runs.len() > 0 {
        lemma_runs_len(runs.drop_last());
    }
}

/// An RLE-compressed chunk
#[derive(Debug, Clone)]
pub struct CompressedChunk {
    pub pos: ChunkPos,
    pub data: Vec<(u16, BlockId)>,
}

impl CompressedChunk {
    /// Compress `chunk` using RLE
    pub fn from_chunk(chunk: &Chunk) -> (c: CompressedChunk)
        requires
            chunk.wf(),
        ensures
            c.pos == chunk.pos,
            runs_flatten(c.data@) == chunk.blocks(),
            runs_canonical(c.data@),
    {
        let mut compressed_data: Vec<(u16, BlockId)> = Vec::new();
        let mut current_block = chunk.data[0];
        let mut current_block_count: u16 = 0;
        let mut i: usize = 0;
        while i < 32768
            invariant
                chunk.wf(),
                i <= 32768,
                current_block_count <= i,
                i > 0 ==> current_block_count > 0,
                i == 0 ==> current_block == chunk.blocks()[0],
                runs_flatten(compressed_data@) + Seq::new(current_block_count as nat, |k: int| current_block)
                    == chunk.blocks().take(i as int),
                runs_canonical(compressed_data@),
                compressed_data@.len() > 0 ==> compressed_data@.last().1 != current_block,
            decreases 32768 - i,
        {
            let b = chunk.data[i];
            if b != current_block {
                let ghost before = compressed_data@;
                compressed_data.push((current_block_count, current_block));
                assert(compressed_data@.drop_last() =~= before);
                current_block = b;
                current_block_count = 0;
            }
            current_block_count = current_block_count + 1;
            assert(chunk.blocks().take(i + 1) =~= chunk.blocks().take(i as int).push(b));
            i = i + 1;
            assert(runs_flatten(compressed_data@) + Seq::new(current_block_count as nat, |k: int| current_block)
                =~= chunk.blocks().take(i as int));
        }
        let ghost before = compressed_data@;
        compressed_data.push((current_block_count, current_block));
        assert(compressed_data@.drop_last() =~= before);
        assert(chunk.blocks().take(32768) =~= chunk.blocks());
        CompressedChunk { pos: chunk.pos, data: compressed_data }
    }

    /// Whether the runs describe at most the blocks of one chunk
    pub fn fits_in_chunk(&self) -> (b: bool)
        ensures
            b == (runs_total(self.data@) <= chunk_volume()),
    {
        let mut total: u64 = 0;
        let mut k: usize = 0;
        while k < self.data.len()
            invariant
                k <= self.data@.len(),
                total == runs_total(self.data@.take(k as int)),
                total <= chunk_volume(),
            decreases self.data@.len() - k,
        {
            proof {
                assert(self.data@.take(k + 1).drop_last() =~= self.data@.take(k as int));
            }
            total = total + self.data[k].0 as u64;
            if total > 32768 {
                proof {
                    lemma_runs_total_prefix_mono(self.data@, k + 1);
                }
                return false;
            }
            k = k + 1;
        }
        proof {
            assert(self.data@.take(k as int) =~= self.data@);
        }
        true
    }

    /// Recover the chunk that was compressed
    pub fn to_chunk(&self) -> (c: Chunk)
        requires
            runs_total(self.data@) <= chunk_volume(),
        ensures
            c.wf(),
            c.pos == self.pos,
            c.blocks() == runs_flatten(self.data@) + Seq::new(
                (chunk_volume() - runs_total(self.data@)) as nat,
                |k: int| 0u16,
            ),
    {
        let mut data: Vec<BlockId> = Vec::new();
        data.resize(32768, 0);
        let mut i: u16 = 0;
        let mut r: usize = 0;
        proof {
            lemma_runs_len(self.data@);
        }
        while r < self.data.len()
            invariant
                data@.len() == chunk_volume(),
                r <= self.data@.len(),
                runs_total(self.data@) <= chunk_volume(),
                i == runs_total(self.data@.take(r as int)),
                data@.take(i as int) == runs_flatten(self.data@.take(r as int)),
                forall|k: int| i <= k < chunk_volume() ==> #[trigger] data@[k] == 0,
            decreases self.data@.len() - r,
        {
            let (len, block) = self.data[r];
            proof {
                lemma_runs_total_prefix_mono(self.data@, r as int + 1);
                assert(self.data@.take(r + 1).drop_last() =~= self.data@.take(r as int));
            }
            let mut j: u16 = 0;
            while j < len
                invariant
                    data@.len() == chunk_volume(),
                    j <= len,
                    i + len <= chunk_volume(),
                    data@.take(i as int) == runs_flatten(self.data@.take(r as int)),
                    forall|k: int| i <= k < i + j ==> #[trigger] data@[k] == block,
                    forall|k: int| i + j <= k < chunk_volume() ==> #[trigger] data@[k] == 0,
                decreases len - j,
            {
                data.set((i + j) as usize, block);
                j = j + 1;
            }
            let ghost old_i = i;
            i = i + len;
            r = r + 1;
            assert(data@.take(i as int) =~= data@.take(old_i as int) + Seq::new(
                len as nat,
                |k: int| block,
            ));
        }
        assert(self.data@.take(self.data@.len() as int) =~= self.data@);
        assert(data@ =~= data@.take(i as int) + Seq::new(
            (chunk_volume() - runs_total(self.data@)) as nat,
            |k: int| 0u16,
        ));
        Chunk { pos: self.pos, data }
    }
}

/// The total of a prefix of runs never exceeds the total of all runs
pub proof fn lemma_runs_total_prefix_mono(runs: Seq<(u16, BlockId)>, n: int)
    requires
        0 <= n <= runs.len(),
    ensures
        runs_total(runs.take(n)) <= runs_total(runs),
    decreases runs.len(),
{
    if n < runs.len() {
        assert(runs.drop_last().take(n) =~= runs.take(n));
        lemma_runs_total_prefix_mono(runs.drop_last(), n);
    } else {
        assert(runs.take(n) =~= runs);
    }
}

} // verus!

verus! {

/// Decompressing the compression of a chunk gives the chunk back: the runs
/// describe exactly the blocks of the chunk, so no padding is added.
pub proof fn lemma_compression_roundtrip(chunk: Chunk, runs: Seq<(u16, BlockId)>)
    requires
        chunk.wf(),
        runs_flatten(runs) == chunk.blocks(),
    ensures
        runs_total(runs) == chunk_volume(),
        runs_flatten(runs) + Seq::new(
            (chunk_volume() - runs_total(runs)) as nat,
            |k: int| 0u16,
        ) == chunk.blocks(),
{
    lemma_runs_len(runs);
    assert(runs_flatten(runs) + Seq::new(
        (chunk_volume() - runs_total(runs)) as nat,
        |k: int| 0u16,
    ) =~= chunk.blocks());
}

} // verus!
