use vstd::prelude::*;
use crate::worldgen::topology::TopologyBlocks;
use crate::client_world::BlockContainer;
use crate::chunk::{BlockId, Chunk, ChunkPos, ChunkPosXZ, CHUNK_SIZE, block_index, chunk_volume};

verus! {

/// The position of a block in the world.
#[derive(Debug, Clone, Copy, PartialEq, Eq, Structural, Hash)]
pub struct BlockPos {
    pub px: i64,
    pub py: i64,
    pub pz: i64,
}

impl BlockPos {
    /// Build a block position from its coordinates
    pub fn from_coords(px: i64, py: i64, pz: i64) -> (r: BlockPos)
        ensures
            r.px == px && r.py == py && r.pz == pz,
    {
        BlockPos { px, py, pz }
    }

    /// The chunk that contains this block (floor division of each coordinate by the chunk size)
    pub open spec fn spec_containing_chunk_pos(self) -> ChunkPos {
        ChunkPos { px: (self.px / 32) as i64, py: (self.py / 32) as i64, pz: (self.pz / 32) as i64 }
    }

    /// The position of this block inside its chunk (euclidean remainder of each coordinate)
    pub open spec fn spec_pos_in_containing_chunk(self) -> (u32, u32, u32) {
        ((self.px % 32) as u32, (self.py % 32) as u32, (self.pz % 32) as u32)
    }

    pub fn containing_chunk_pos(self) -> (c: ChunkPos)
        ensures
            c == self.spec_containing_chunk_pos(),
    {
        ChunkPos { px: div_chunk(self.px), py: div_chunk(self.py), pz: div_chunk(self.pz) }
    }

    pub fn pos_in_containing_chunk(self) -> (p: (u32, u32, u32))
        ensures
            p == self.spec_pos_in_containing_chunk(),
            p.0 < 32 && p.1 < 32 && p.2 < 32,
    {
        (rem_chunk(self.px), rem_chunk(self.py), rem_chunk(self.pz))
    }
}

/// Euclidean division of a coordinate by the chunk size
fn div_chunk(x: i64) -> (r: i64)
    ensures
        r == x / 32,
{
    match x.checked_div_euclid(32) {
        Some(v) => v,
        None => {
            proof {
                assert(i64::MIN <= x / 32 <= i64::MAX) by (nonlinear_arith);
            }
            0
        },
    }
}

/// Euclidean remainder of a coordinate by the chunk size
fn rem_chunk(x: i64) -> (r: u32)
    ensures
        r == x % 32,
        r < 32,
{
    match x.checked_rem_euclid(32) {
        Some(v) => v as u32,
        None => 0,
    }
}

/// A block position is recovered from its chunk and its position inside that chunk
pub proof fn lemma_block_pos_decomposition(pos: BlockPos)
    ensures
        pos.px == pos.spec_containing_chunk_pos().px * 32 + pos.spec_pos_in_containing_chunk().0,
        pos.py == pos.spec_containing_chunk_pos().py * 32 + pos.spec_pos_in_containing_chunk().1,
        pos.pz == pos.spec_containing_chunk_pos().pz * 32 + pos.spec_pos_in_containing_chunk().2,
        pos.spec_pos_in_containing_chunk().0 < 32,
        pos.spec_pos_in_containing_chunk().1 < 32,
        pos.spec_pos_in_containing_chunk().2 < 32,
{
    assert(pos.px == (pos.px / 32) * 32 + pos.px % 32) by (nonlinear_arith);
    assert(pos.py == (pos.py / 32) * 32 + pos.py % 32) by (nonlinear_arith);
    assert(pos.pz == (pos.pz / 32) * 32 + pos.pz % 32) by (nonlinear_arith);
    assert(i64::MIN <= pos.px / 32 <= i64::MAX) by (nonlinear_arith);
    assert(i64::MIN <= pos.py / 32 <= i64::MAX) by (nonlinear_arith);
    assert(i64::MIN <= pos.pz / 32 <= i64::MAX) by (nonlinear_arith);
}

} // verus!

verus! {

/// Chunk positions in a sequence of chunks are pairwise distinct
pub open spec fn chunk_positions_distinct(s: Seq<Chunk>) -> bool {
    forall|i: int, j: int|
        0 <= i < s.len() && 0 <= j < s.len() && i != j ==> #[trigger] s[i].pos != #[trigger] s[j].pos
}

/// Whether some chunk of the sequence is at `pos`
pub open spec fn seq_has_chunk(s: Seq<Chunk>, pos: ChunkPos) -> bool {
    exists|i: int| 0 <= i < s.len() && #[trigger] s[i].pos == pos
}

/// The blocks of the chunks of a sequence, by position
pub open spec fn chunks_view(s: Seq<Chunk>) -> Map<ChunkPos, Seq<BlockId>> {
    Map::new(
        |p: ChunkPos| seq_has_chunk(s, p),
        |p: ChunkPos| s[choose|i: int| 0 <= i < s.len() && #[trigger] s[i].pos == p].blocks(),
    )
}

/// In a sequence of chunks with distinct positions, the view at the position of
/// an element is the blocks of that element
pub proof fn lemma_chunks_view_at(s: Seq<Chunk>, i: int)
    requires
        chunk_positions_distinct(s),
        0 <= i < s.len(),
    ensures
        chunks_view(s).dom().contains(s[i].pos),
        chunks_view(s)[s[i].pos] == s[i].blocks(),
{
    assert(seq_has_chunk(s, s[i].pos));
    let j = choose|j: int| 0 <= j < s.len() && #[trigger] s[j].pos == s[i].pos;
    assert(j == i);
}

/// Replacing an element by a chunk at the same position updates the view at that position
pub proof fn lemma_chunks_view_update(s: Seq<Chunk>, i: int, c: Chunk)
    requires
        chunk_positions_distinct(s),
        0 <= i < s.len(),
        c.pos == s[i].pos,
    ensures
        chunk_positions_distinct(s.update(i, c)),
        chunks_view(s.update(i, c)) == chunks_view(s).insert(c.pos, c.blocks()),
{
    let t = s.update(i, c);
    assert forall|p: ChunkPos| #[trigger] chunks_view(t).dom().contains(p) <==> chunks_view(s).insert(c.pos, c.blocks()).dom().contains(p) by {
        if seq_has_chunk(t, p) {
            let k = choose|k: int| 0 <= k < t.len() && #[trigger] t[k].pos == p;
            assert(s[k].pos == p);
        }
        if seq_has_chunk(s, p) {
            let k = choose|k: int| 0 <= k < s.len() && #[trigger] s[k].pos == p;
            assert(t[k].pos == p);
        }
    }
    assert forall|p: ChunkPos| #[trigger] chunks_view(t).dom().contains(p) implies chunks_view(t)[p] == chunks_view(s).insert(c.pos, c.blocks())[p] by {
        let k = choose|k: int| 0 <= k < t.len() && #[trigger] t[k].pos == p;
        lemma_chunks_view_at(t, k);
        if k != i {
            lemma_chunks_view_at(s, k);
        }
    }
    assert(chunks_view(t) =~= chunks_view(s).insert(c.pos, c.blocks()));
}

/// Appending a chunk at a new position adds it to the view
pub proof fn lemma_chunks_view_push(s: Seq<Chunk>, c: Chunk)
    requires
        chunk_positions_distinct(s),
        !seq_has_chunk(s, c.pos),
    ensures
        chunk_positions_distinct(s.push(c)),
        chunks_view(s.push(c)) == chunks_view(s).insert(c.pos, c.blocks()),
{
    let t = s.push(c);
    assert forall|i: int, j: int|
        0 <= i < t.len() && 0 <= j < t.len() && i != j implies #[trigger] t[i].pos != #[trigger] t[j].pos by {
        if i == s.len() {
            assert(s[j].pos == t[j].pos);
        } else if j == s.len() {
            assert(s[i].pos == t[i].pos);
        }
    }
    assert forall|p: ChunkPos| #[trigger] chunks_view(t).dom().contains(p) <==> chunks_view(s).insert(c.pos, c.blocks()).dom().contains(p) by {
        if seq_has_chunk(t, p) {
            let k = choose|k: int| 0 <= k < t.len() && #[trigger] t[k].pos == p;
            if k < s.len() {
                assert(s[k].pos == p);
            }
        }
        if seq_has_chunk(s, p) {
            let k = choose|k: int| 0 <= k < s.len() && #[trigger] s[k].pos == p;
            assert(t[k].pos == p);
        }
        if p == c.pos {
            assert(t[s.len() as int].pos == p);
        }
    }
    assert forall|p: ChunkPos| #[trigger] chunks_view(t).dom().contains(p) implies chunks_view(t)[p] == chunks_view(s).insert(c.pos, c.blocks())[p] by {
        let k = choose|k: int| 0 <= k < t.len() && #[trigger] t[k].pos == p;
        lemma_chunks_view_at(t, k);
        if k < s.len() {
            assert(s[k] == t[k]);
            lemma_chunks_view_at(s, k);
        }
    }
    assert(chunks_view(t) =~= chunks_view(s).insert(c.pos, c.blocks()));
}

/// Removing the element at an index removes its position from the view
pub proof fn lemma_chunks_view_remove(s: Seq<Chunk>, i: int)
    requires
        chunk_positions_distinct(s),
        0 <= i < s.len(),
    ensures
        chunk_positions_distinct(s.remove(i)),
        chunks_view(s.remove(i)) == chunks_view(s).remove(s[i].pos),
{
    let t = s.remove(i);
    assert forall|a: int, b: int|
        0 <= a < t.len() && 0 <= b < t.len() && a != b implies #[trigger] t[a].pos != #[trigger] t[b].pos by {
        let a2 = if a < i { a } else { a + 1 };
        let b2 = if b < i { b } else { b + 1 };
        assert(t[a] == s[a2] && t[b] == s[b2]);
    }
    assert forall|p: ChunkPos| #[trigger] chunks_view(t).dom().contains(p) <==> chunks_view(s).remove(s[i].pos).dom().contains(p) by {
        if seq_has_chunk(t, p) {
            let k = choose|k: int| 0 <= k < t.len() && #[trigger] t[k].pos == p;
            let k2 = if k < i { k } else { k + 1 };
            assert(s[k2].pos == p);
        }
        if seq_has_chunk(s, p) && p != s[i].pos {
            let k = choose|k: int| 0 <= k < s.len() && #[trigger] s[k].pos == p;
            let k2 = if k < i { k } else { k - 1 };
            assert(t[k2].pos == p);
        }
    }
    assert forall|p: ChunkPos| #[trigger] chunks_view(t).dom().contains(p) implies chunks_view(t)[p] == chunks_view(s).remove(s[i].pos)[p] by {
        let k = choose|k: int| 0 <= k < t.len() && #[trigger] t[k].pos == p;
        let k2 = if k < i { k } else { k + 1 };
        lemma_chunks_view_at(t, k);
        assert(t[k] == s[k2]);
        lemma_chunks_view_at(s, k2);
    }
    assert(chunks_view(t) =~= chunks_view(s).remove(s[i].pos));
}

/// Find the index of the chunk at `pos`
pub(crate) fn find_chunk_index(chunks: &Vec<Chunk>, pos: ChunkPos) -> (r: Option<usize>)
    ensures
        r.is_some() <==> seq_has_chunk(chunks@, pos),
        r matches Some(i) ==> i < chunks@.len() && chunks@[i as int].pos == pos,
{
    let mut i: usize = 0;
    while i < chunks.len()
        invariant
            i <= chunks@.len(),
            forall|k: int| 0 <= k < i ==> #[trigger] chunks@[k].pos != pos,
        decreases chunks@.len() - i,
    {
        if chunks[i].pos == pos {
            return Some(i);
        }
        i = i + 1;
    }
    None
}

/// This data structure contains the y position of the highest opaque block
/// of each block column of a chunk column
pub struct HighestOpaqueBlock {
    pub pos: ChunkPosXZ,
    pub y: Vec<i64>,
}

impl HighestOpaqueBlock {
    /// There is one height per block column
    pub open spec fn wf(&self) -> bool {
        self.y@.len() == 1024
    }

    pub fn new(pos: ChunkPosXZ) -> (h: HighestOpaqueBlock)
        ensures
            h.wf(),
            h.pos == pos,
            h.y@ == Seq::new(1024, |k: int| 0i64),
    {
        let mut y: Vec<i64> = Vec::new();
        let mut i: usize = 0;
        while i < 1024
            invariant
                i <= 1024,
                y@ == Seq::new(i as nat, |k: int| 0i64),
            decreases 1024 - i,
        {
            y.push(0);
            i = i + 1;
        }
        HighestOpaqueBlock { pos, y }
    }
}

/// Column positions in a sequence of highest-block records are pairwise distinct
pub open spec fn columns_distinct(s: Seq<HighestOpaqueBlock>) -> bool {
    forall|i: int, j: int|
        0 <= i < s.len() && 0 <= j < s.len() && i != j ==> #[trigger] s[i].pos != #[trigger] s[j].pos
}

/// Whether some record of the sequence describes column `pos`
pub open spec fn seq_has_column(s: Seq<HighestOpaqueBlock>, pos: ChunkPosXZ) -> bool {
    exists|i: int| 0 <= i < s.len() && #[trigger] s[i].pos == pos
}

/// The heights of the records of a sequence, by column
pub open spec fn columns_view(s: Seq<HighestOpaqueBlock>) -> Map<ChunkPosXZ, Seq<i64>> {
    Map::new(
        |p: ChunkPosXZ| seq_has_column(s, p),
        |p: ChunkPosXZ| s[choose|i: int| 0 <= i < s.len() && #[trigger] s[i].pos == p].y@,
    )
}

/// In a sequence of records with distinct columns, the view at the column of
/// an element is the heights of that element
pub proof fn lemma_columns_view_at(s: Seq<HighestOpaqueBlock>, i: int)
    requires
        columns_distinct(s),
        0 <= i < s.len(),
    ensures
        columns_view(s).dom().contains(s[i].pos),
        columns_view(s)[s[i].pos] == s[i].y@,
{
    assert(seq_has_column(s, s[i].pos));
    let j = choose|j: int| 0 <= j < s.len() && #[trigger] s[j].pos == s[i].pos;
    assert(j == i);
}

/// Replacing a record by one for the same column updates the view at that column
pub proof fn lemma_columns_view_update(s: Seq<HighestOpaqueBlock>, i: int, c: HighestOpaqueBlock)
    requires
        columns_distinct(s),
        0 <= i < s.len(),
        c.pos == s[i].pos,
    ensures
        columns_distinct(s.update(i, c)),
        columns_view(s.update(i, c)) == columns_view(s).insert(c.pos, c.y@),
{
    let t = s.update(i, c);
    assert forall|p: ChunkPosXZ| #[trigger] columns_view(t).dom().contains(p) <==> columns_view(s).insert(c.pos, c.y@).dom().contains(p) by {
        if seq_has_column(t, p) {
            let k = choose|k: int| 0 <= k < t.len() && #[trigger] t[k].pos == p;
            assert(s[k].pos == p);
        }
        if seq_has_column(s, p) {
            let k = choose|k: int| 0 <= k < s.len() && #[trigger] s[k].pos == p;
            assert(t[k].pos == p);
        }
    }
    assert forall|p: ChunkPosXZ| #[trigger] columns_view(t).dom().contains(p) implies columns_view(t)[p] == columns_view(s).insert(c.pos, c.y@)[p] by {
        let k = choose|k: int| 0 <= k < t.len() && #[trigger] t[k].pos == p;
        lemma_columns_view_at(t, k);
        if k != i {
            lemma_columns_view_at(s, k);
        }
    }
    assert(columns_view(t) =~= columns_view(s).insert(c.pos, c.y@));
}

/// Appending a record for a new column adds it to the view
pub proof fn lemma_columns_view_push(s: Seq<HighestOpaqueBlock>, c: HighestOpaqueBlock)
    requires
        columns_distinct(s),
        !seq_has_column(s, c.pos),
    ensures
        columns_distinct(s.push(c)),
        columns_view(s.push(c)) == columns_view(s).insert(c.pos, c.y@),
{
    let t = s.push(c);
    assert forall|i: int, j: int|
        0 <= i < t.len() && 0 <= j < t.len() && i != j implies #[trigger] t[i].pos != #[trigger] t[j].pos by {
        if i == s.len() {
            assert(s[j].pos == t[j].pos);
        } else if j == s.len() {
            assert(s[i].pos == t[i].pos);
        }
    }
    assert forall|p: ChunkPosXZ| #[trigger] columns_view(t).dom().contains(p) <==> columns_view(s).insert(c.pos, c.y@).dom().contains(p) by {
        if seq_has_column(t, p) {
            let k = choose|k: int| 0 <= k < t.len() && #[trigger] t[k].pos == p;
            if k < s.len() {
                assert(s[k].pos == p);
            }
        }
        if seq_has_column(s, p) {
            let k = choose|k: int| 0 <= k < s.len() && #[trigger] s[k].pos == p;
            assert(t[k].pos == p);
        }
        if p == c.pos {
            assert(t[s.len() as int].pos == p);
        }
    }
    assert forall|p: ChunkPosXZ| #[trigger] columns_view(t).dom().contains(p) implies columns_view(t)[p] == columns_view(s).insert(c.pos, c.y@)[p] by {
        let k = choose|k: int| 0 <= k < t.len() && #[trigger] t[k].pos == p;
        lemma_columns_view_at(t, k);
        if k < s.len() {
            assert(s[k] == t[k]);
            lemma_columns_view_at(s, k);
        }
    }
    assert(columns_view(t) =~= columns_view(s).insert(c.pos, c.y@));
}

/// Find the index of the record of column `pos`
fn find_column_index(records: &Vec<HighestOpaqueBlock>, pos: ChunkPosXZ) -> (r: Option<usize>)
    ensures
        r.is_some() <==> seq_has_column(records@, pos),
        r matches Some(i) ==> i < records@.len() && records@[i as int].pos == pos,
{
    let mut i: usize = 0;
    while i < records.len()
        invariant
            i <= records@.len(),
            forall|k: int| 0 <= k < i ==> #[trigger] records@[k].pos != pos,
        decreases records@.len() - i,
    {
        if records[i].pos == pos {
            return Some(i);
        }
        i = i + 1;
    }
    None
}

/// The block at height `t` of block column `k` (x * 32 + z) of a chunk
pub open spec fn column_block(d: Seq<BlockId>, k: int, t: int) -> BlockId {
    d[(k / 32) * 1024 + t * 32 + k % 32]
}

/// The highest of the blocks at heights below `n` of column (x, z) of a chunk
/// that is not air, if any
pub open spec fn top_in_column(d: Seq<BlockId>, x: int, z: int, n: int) -> Option<int>
    decreases n,
{
    if n <= 0 {
        None
    } else if d[x * 1024 + (n - 1) * 32 + z] != 0 {
        Some(n - 1)
    } else {
        top_in_column(d, x, z, n - 1)
    }
}

/// The block column of index `k` (x * 32 + z) of the chunk at height `py`,
/// whose recorded height was `v`, has no block left at or above `v`: the
/// recorded height was in the chunk and the column of the chunk is now all air
pub open spec fn column_emptied(v: int, py: int, d: Seq<BlockId>, k: int) -> bool {
    py * 32 <= v < (py + 1) * 32 && top_in_column(d, k / 32, k % 32, 32) is None
}

/// The height recorded for block column `k` after scanning the chunk at height
/// `py` with blocks `d`: a column whose height is below the top of the chunk
/// takes the highest block of the chunk that is not air; a column whose height
/// was in the chunk and that is now all air goes back to 0
pub open spec fn height_after_chunk(v: int, py: int, d: Seq<BlockId>, k: int) -> int {
    if v < (py + 1) * 32 {
        match top_in_column(d, k / 32, k % 32, 32) {
            Some(t) => py * 32 + t,
            None => if v >= py * 32 { 0 } else { v },
        }
    } else {
        v
    }
}

/// The heights after scanning the chunk at height `py` with blocks `d`
pub open spec fn heights_after_chunk(y: Seq<i64>, py: int, d: Seq<BlockId>) -> Seq<i64> {
    Seq::new(y.len(), |k: int| height_after_chunk(y[k] as int, py, d, k) as i64)
}

/// The height recorded for block column `k` after scanning a lower chunk `o`:
/// a height below the top of `o` takes the highest block of `o` that is not air
pub open spec fn height_after_lower(v: int, o: Chunk, k: int) -> int {
    if v < (o.pos.py + 1) * 32 {
        match top_in_column(o.data@, k / 32, k % 32, 32) {
            Some(t) => o.pos.py * 32 + t,
            None => v,
        }
    } else {
        v
    }
}

/// Chunk `o` is below the chunk at `pos`, in the same chunk column
pub open spec fn lower_in_column(o: ChunkPos, pos: ChunkPos) -> bool {
    o.px == pos.px && o.pz == pos.pz && o.py < pos.py
}

/// The heights after scanning, in storage order, the first `n` chunks of
/// `chunks` that lie below the chunk at `pos` in its chunk column
pub open spec fn heights_after_lower(y: Seq<i64>, chunks: Seq<Chunk>, n: int, pos: ChunkPos) -> Seq<i64>
    decreases n,
{
    if n <= 0 {
        y
    } else {
        let prev = heights_after_lower(y, chunks, n - 1, pos);
        let o = chunks[n - 1];
        if lower_in_column(o.pos, pos) {
            Seq::new(prev.len(), |k: int| height_after_lower(prev[k] as int, o, k) as i64)
        } else {
            prev
        }
    }
}

/// The heights of a chunk column after the chunk at `pos` with blocks `d` was
/// updated: the chunk is scanned, and where a column of it lost its highest
/// block, the lower chunks of the chunk column are scanned in storage order
pub open spec fn updated_heights(y: Seq<i64>, chunks: Seq<Chunk>, d: Seq<BlockId>, pos: ChunkPos) -> Seq<i64> {
    let first = heights_after_chunk(y, pos.py as int, d);
    if exists|k: int| 0 <= k < y.len() && #[trigger] column_emptied(y[k] as int, pos.py as int, d, k) {
        heights_after_lower(first, chunks, chunks.len() as int, pos)
    } else {
        first
    }
}

/// Block heights in the lower chunks of the chunk column of `pos` fit in an `i64`
pub open spec fn lower_heights_fit(chunks: Seq<Chunk>, pos: ChunkPos) -> bool {
    forall|m: int| 0 <= m < chunks.len() && lower_in_column(#[trigger] chunks[m].pos, pos) ==> chunks[m].pos.py * 32 >= i64::MIN
}

/// The blocks of a chunk that is not loaded yet: all air
pub open spec fn empty_chunk_blocks() -> Seq<BlockId> {
    Seq::new(chunk_volume() as nat, |k: int| 0u16)
}

/// The chunks of a world after the block at `pos` is set to `block`, the chunk
/// holding `pos` being created empty first when it is not loaded
pub open spec fn view_after_set_block(
    view: Map<ChunkPos, Seq<BlockId>>,
    pos: BlockPos,
    block: BlockId,
) -> Map<ChunkPos, Seq<BlockId>> {
    let c = pos.spec_containing_chunk_pos();
    let (x, y, z) = pos.spec_pos_in_containing_chunk();
    let before = if view.dom().contains(c) { view[c] } else { empty_chunk_blocks() };
    view.insert(c, before.update(block_index(x, y, z), block))
}

/// A game world
pub struct World {
    pub chunks: Vec<Chunk>,
    pub highest_opaque_block: Vec<HighestOpaqueBlock>,
}

impl World {
    /// Chunks and columns are stored once each, and every stored value is well formed
    pub open spec fn wf(&self) -> bool {
        &&& chunk_positions_distinct(self.chunks@)
        &&& forall|i: int| 0 <= i < self.chunks@.len() ==> #[trigger] self.chunks@[i].wf()
        &&& columns_distinct(self.highest_opaque_block@)
        &&& forall|i: int| 0 <= i < self.highest_opaque_block@.len() ==> #[trigger] self.highest_opaque_block@[i].wf()
    }

    /// The blocks of each loaded chunk, by chunk position
    pub open spec fn view(&self) -> Map<ChunkPos, Seq<BlockId>> {
        chunks_view(self.chunks@)
    }

    /// The highest opaque block heights, by column
    pub open spec fn heights(&self) -> Map<ChunkPosXZ, Seq<i64>> {
        columns_view(self.highest_opaque_block@)
    }

    /// The block at a world position, 0 where no chunk is loaded
    pub open spec fn spec_block(&self, pos: BlockPos) -> BlockId {
        let c = pos.spec_containing_chunk_pos();
        let (x, y, z) = pos.spec_pos_in_containing_chunk();
        if self.view().dom().contains(c) {
            self.view()[c][block_index(x, y, z)]
        } else {
            0
        }
    }

    pub fn new() -> (w: World)
        ensures
            w.wf(),
            w.view() == Map::<ChunkPos, Seq<BlockId>>::empty(),
            w.heights() == Map::<ChunkPosXZ, Seq<i64>>::empty(),
    {
        let w = World { chunks: Vec::new(), highest_opaque_block: Vec::new() };
        assert(w.view() =~= Map::<ChunkPos, Seq<BlockId>>::empty());
        assert(w.heights() =~= Map::<ChunkPosXZ, Seq<i64>>::empty());
        w
    }

    /// Remove the chunk from the world
    pub fn drop_chunk(&mut self, pos: ChunkPos)
        requires
            old(self).wf(),
        ensures
            final(self).wf(),
            final(self).view() == old(self).view().remove(pos),
            final(self).heights() == old(self).heights(),
    {
        match find_chunk_index(&self.chunks, pos) {
            Some(i) => {
                proof {
                    lemma_chunks_view_remove(self.chunks@, i as int);
                }
                let ghost s = self.chunks@;
                self.chunks.remove(i);
                assert(forall|k: int| 0 <= k < self.chunks@.len() ==> self.chunks@[k] == s.remove(i as int)[k]);
            },
            None => {
                assert(self.view() =~= self.view().remove(pos));
            },
        }
    }

    /// Return a reference to the chunk if it exists, None otherwise
    pub fn get_chunk(&self, pos: ChunkPos) -> (r: Option<&Chunk>)
        requires
            self.wf(),
        ensures
            r.is_some() <==> self.view().dom().contains(pos),
            r matches Some(c) ==> c.pos == pos && c.wf() && c.blocks() == self.view()[pos],
    {
        match find_chunk_index(&self.chunks, pos) {
            Some(i) => {
                proof {
                    lemma_chunks_view_at(self.chunks@, i as int);
                }
                Some(&self.chunks[i])
            },
            None => None,
        }
    }

    /// Return true if there exists a chunk at `pos`
    pub fn has_chunk(&self, pos: ChunkPos) -> (b: bool)
        ensures
            b == self.view().dom().contains(pos),
    {
        find_chunk_index(&self.chunks, pos).is_some()
    }

    /// Return block at position `pos` in the world. 0 is returned if the chunk does not exists/is not loaded
    pub fn get_block(&self, pos: BlockPos) -> (b: BlockId)
        requires
            self.wf(),
        ensures
            b == self.spec_block(pos),
    {
        match self.get_chunk(pos.containing_chunk_pos()) {
            None => 0,
            Some(chunk) => {
                let p = pos.pos_in_containing_chunk();
                chunk.get_block_at(p)
            },
        }
    }

    /// Set the chunk at position `pos`
    pub fn set_chunk(&mut self, chunk: Chunk)
        requires
            old(self).wf(),
            chunk.wf(),
        ensures
            final(self).wf(),
            final(self).view() == old(self).view().insert(chunk.pos, chunk.blocks()),
            final(self).heights() == old(self).heights(),
    {
        match find_chunk_index(&self.chunks, chunk.pos) {
            Some(i) => {
                proof {
                    lemma_chunks_view_update(self.chunks@, i as int, chunk);
                }
                self.chunks.set(i, chunk);
            },
            None => {
                proof {
                    lemma_chunks_view_push(self.chunks@, chunk);
                }
                self.chunks.push(chunk);
            },
        }
    }

    /// Create a new chunk at position `pos` if not already present, and return
    /// the index of the chunk at `pos` in the chunk storage
    fn add_chunk_index(&mut self, pos: ChunkPos) -> (i: usize)
        requires
            old(self).wf(),
        ensures
            final(self).wf(),
            i < final(self).chunks@.len(),
            final(self).chunks@[i as int].pos == pos,
            final(self).view() == if old(self).view().dom().contains(pos) {
                old(self).view()
            } else {
                old(self).view().insert(pos, empty_chunk_blocks())
            },
            final(self).heights() == old(self).heights(),
    {
        match find_chunk_index(&self.chunks, pos) {
            Some(i) => {
                assert(self.view() =~= old(self).view());
                i
            },
            None => {
                let c = Chunk::new(pos);
                proof {
                    lemma_chunks_view_push(self.chunks@, c);
                    assert(c.blocks() =~= empty_chunk_blocks());
                }
                self.chunks.push(c);
                self.chunks.len() - 1
            },
        }
    }

    /// Create a new chunk at position `pos` if not already present; anyway,
    /// return a mutable reference to the chunk created or existing
    pub fn get_add_chunk(&mut self, pos: ChunkPos) -> (r: &mut Chunk)
        requires
            old(self).wf(),
        ensures
            r.pos == pos,
            r.wf(),
            r.blocks() == (if old(self).view().dom().contains(pos) {
                old(self).view()[pos]
            } else {
                empty_chunk_blocks()
            }),
            final(r).pos == pos && final(r).wf() ==> final(self).wf(),
            final(r).pos == pos ==> final(self).view() == old(self).view().insert(pos, final(r).blocks()),
            final(self).heights() == old(self).heights(),
    {
        let i = self.add_chunk_index(pos);
        proof {
            lemma_chunks_view_at(self.chunks@, i as int);
        }
        let ghost s = self.chunks@;
        let ghost added = self.view();
        proof {
            assert forall|c: Chunk| c.pos == pos implies chunk_positions_distinct(#[trigger] s.update(i as int, c))
                && chunks_view(s.update(i as int, c)) == old(self).view().insert(pos, c.blocks()) by {
                lemma_chunks_view_update(s, i as int, c);
                assert(added.insert(pos, c.blocks()) =~= old(self).view().insert(pos, c.blocks()));
            }
            assert forall|c: Chunk| c.wf() implies forall|k: int|
                0 <= k < s.len() ==> (#[trigger] s.update(i as int, c)[k]).wf() by {
                assert forall|k: int| 0 <= k < s.len() implies (#[trigger] s.update(i as int, c)[k]).wf() by {
                    if k != i {
                        assert(s.update(i as int, c)[k] == s[k]);
                    }
                }
            }
        }
        &mut self.chunks[i]
    }

    /// Set block at position `pos`
    /// Create a new empty chunk if necessary
    pub fn set_block(&mut self, pos: BlockPos, block: BlockId)
        requires
            old(self).wf(),
        ensures
            final(self).wf(),
            final(self).heights() == old(self).heights(),
            final(self).view() == view_after_set_block(old(self).view(), pos, block),
    {
        let cpos = pos.containing_chunk_pos();
        let p = pos.pos_in_containing_chunk();
        self.get_add_chunk(cpos).set_block_at(p, block);
    }

    /// Function to be called when updating a chunk to update highest
    /// Return if they must have a large light update over the 3x3 chunk column
    pub fn update_highest_opaque_block(&mut self, chunk_pos: ChunkPos) -> (large_update: bool)
        requires
            old(self).wf(),
            old(self).view().dom().contains(chunk_pos) ==> i64::MIN <= chunk_pos.py * 32 && (chunk_pos.py + 1) * 32 <= i64::MAX,
            old(self).view().dom().contains(chunk_pos) ==> lower_heights_fit(old(self).chunks@, chunk_pos),
        ensures
            final(self).wf(),
            final(self).view() == old(self).view(),
            final(self).chunks@ == old(self).chunks@,
            large_update == old(self).view().dom().contains(chunk_pos),
            ({
                let xz = ChunkPosXZ { px: chunk_pos.px, pz: chunk_pos.pz };
                let before = if old(self).heights().dom().contains(xz) {
                    old(self).heights()[xz]
                } else {
                    Seq::new(1024, |k: int| 0i64)
                };
                final(self).heights() == old(self).heights().insert(
                    xz,
                    if large_update {
                        updated_heights(before, old(self).chunks@, old(self).view()[chunk_pos], chunk_pos)
                    } else {
                        before
                    },
                )
            }),
            ({
                let xz = ChunkPosXZ { px: chunk_pos.px, pz: chunk_pos.pz };
                let before = if old(self).heights().dom().contains(xz) {
                    old(self).heights()[xz]
                } else {
                    Seq::new(1024, |k: int| 0i64)
                };
                large_update ==> forall|k: int, t: int|
                    0 <= k < 1024 && 0 <= t < 32 && before[k] < (chunk_pos.py + 1) * 32 && #[trigger] column_block(
                        old(self).view()[chunk_pos],
                        k,
                        t,
                    ) != 0 && (forall|t2: int| t < t2 < 32 ==> #[trigger] column_block(old(self).view()[chunk_pos], k, t2) == 0)
                        ==> final(self).heights()[xz][k] == chunk_pos.py * 32 + t
            }),
    {
        let xz = ChunkPosXZ::from_chunk_pos(chunk_pos);
        let h = match find_column_index(&self.highest_opaque_block, xz) {
            Some(h) => {
                proof {
                    lemma_columns_view_at(self.highest_opaque_block@, h as int);
                }
                h
            },
            None => {
                let rec = HighestOpaqueBlock::new(xz);
                proof {
                    lemma_columns_view_push(self.highest_opaque_block@, rec);
                    lemma_columns_view_at(self.highest_opaque_block@.push(rec), self.highest_opaque_block@.len() as int);
                }
                self.highest_opaque_block.push(rec);
                self.highest_opaque_block.len() - 1
            },
        };
        let ghost mid = self.highest_opaque_block@;
        let ghost before = self.heights()[xz];
        assert(mid[h as int].wf());
        let (mut new_y, scan_all) = match self.get_chunk(chunk_pos) {
            // no chunk at update position
            None => return false,
            Some(chunk) => scan_chunk_columns(&self.highest_opaque_block[h].y, chunk, chunk_pos.py),
        };
        let ghost first = new_y@;
        if scan_all {
            // we must scan the whole chunk column
            let mut m: usize = 0;
            while m < self.chunks.len()
                invariant
                    m <= self.chunks@.len(),
                    self.wf(),
                    self.chunks@ == old(self).chunks@,
                    lower_heights_fit(self.chunks@, chunk_pos),
                    (chunk_pos.py + 1) * 32 <= i64::MAX,
                    new_y@ == heights_after_lower(first, self.chunks@, m as int, chunk_pos),
                    new_y@.len() == 1024,
                decreases self.chunks@.len() - m,
            {
                let o = &self.chunks[m];
                if o.pos.px == chunk_pos.px && o.pos.pz == chunk_pos.pz && o.pos.py < chunk_pos.py {
                    assert(lower_in_column(self.chunks@[m as int].pos, chunk_pos));
                    assert(self.chunks@[m as int].wf());
                    scan_lower_chunk(&mut new_y, o);
                }
                m = m + 1;
            }
        }
        proof {
            assert(new_y@ == updated_heights(before, old(self).chunks@, old(self).view()[chunk_pos], chunk_pos));
            let d = old(self).view()[chunk_pos];
            assert forall|k: int, t: int|
                0 <= k < 1024 && 0 <= t < 32 && before[k] < (chunk_pos.py + 1) * 32 && #[trigger] column_block(d, k, t) != 0
                    && (forall|t2: int| t < t2 < 32 ==> #[trigger] column_block(d, k, t2) == 0) implies new_y@[k] == chunk_pos.py * 32
                + t by {
                assert forall|t2: int| t < t2 < 32 implies #[trigger] d[(k / 32) * 1024 + t2 * 32 + k % 32] == 0 by {
                    assert(column_block(d, k, t2) == 0);
                }
                law_update_records_highest_block(before, old(self).chunks@, d, chunk_pos, k, t);
            }
        }
        let rec = HighestOpaqueBlock { pos: xz, y: new_y };
        proof {
            lemma_columns_view_update(mid, h as int, rec);
        }
        self.highest_opaque_block.set(h, rec);
        true
    }
}

/// The highest block of column (x, z) of the chunk that is not air, if any
fn column_top(chunk: &Chunk, x: u32, z: u32) -> (r: Option<u32>)
    requires
        chunk.wf(),
        x < 32,
        z < 32,
    ensures
        match r {
            Some(t) => t < 32 && top_in_column(chunk.data@, x as int, z as int, 32) == Some(t as int),
            None => top_in_column(chunk.data@, x as int, z as int, 32) is None,
        },
{
    let mut y: u32 = 32;
    while y > 0
        invariant
            y <= 32,
            x < 32,
            z < 32,
            chunk.wf(),
            top_in_column(chunk.data@, x as int, z as int, 32) == top_in_column(chunk.data@, x as int, z as int, y as int),
        decreases y,
    {
        y = y - 1;
        if chunk.get_block_at((x, y, z)) != 0 {
            return Some(y);
        }
    }
    None
}

/// Scan the chunk at height `py`: returns the new heights, and whether a column
/// lost its highest block
fn scan_chunk_columns(before: &Vec<i64>, chunk: &Chunk, py: i64) -> (r: (Vec<i64>, bool))
    requires
        before@.len() == 1024,
        chunk.wf(),
        i64::MIN <= py * 32,
        (py + 1) * 32 <= i64::MAX,
    ensures
        r.0@ == heights_after_chunk(before@, py as int, chunk.data@),
        r.1 == exists|k: int| 0 <= k < before@.len() && #[trigger] column_emptied(before@[k] as int, py as int, chunk.data@, k),
{
    let top: i64 = (py + 1) * 32;
    let bottom: i64 = py * 32;
    let mut new_y: Vec<i64> = Vec::new();
    let mut emptied = false;
    let mut k: usize = 0;
    while k < 1024
        invariant
            k <= 1024,
            before@.len() == 1024,
            chunk.wf(),
            top == (py + 1) * 32,
            bottom == py * 32,
            new_y@ == heights_after_chunk(before@, py as int, chunk.data@).take(k as int),
            emptied == exists|k2: int| 0 <= k2 < k && #[trigger] column_emptied(before@[k2] as int, py as int, chunk.data@, k2),
        decreases 1024 - k,
    {
        let v = before[k];
        let x = (k / 32) as u32;
        let z = (k % 32) as u32;
        let mut nv = v;
        if v < top {
            match column_top(chunk, x, z) {
                Some(t) => {
                    nv = bottom + t as i64;
                },
                None => {
                    if v >= bottom {
                        // the old max was in the chunk but not the new one
                        nv = 0;
                        emptied = true;
                    }
                },
            }
        }
        proof {
            assert(nv == height_after_chunk(v as int, py as int, chunk.data@, k as int));
            assert(column_emptied(before@[k as int] as int, py as int, chunk.data@, k as int) ==> emptied);
            if emptied {
                if !(exists|k2: int| 0 <= k2 < k && #[trigger] column_emptied(before@[k2] as int, py as int, chunk.data@, k2)) {
                    assert(column_emptied(before@[k as int] as int, py as int, chunk.data@, k as int));
                }
            }
        }
        new_y.push(nv);
        proof {
            assert(new_y@ =~= heights_after_chunk(before@, py as int, chunk.data@).take(k + 1));
        }
        k = k + 1;
    }
    assert(new_y@ =~= heights_after_chunk(before@, py as int, chunk.data@));
    (new_y, emptied)
}

/// Scan a lower chunk of the chunk column: heights below its top take its
/// highest block that is not air
fn scan_lower_chunk(y: &mut Vec<i64>, o: &Chunk)
    requires
        old(y)@.len() == 1024,
        o.wf(),
        i64::MIN <= o.pos.py * 32,
        (o.pos.py + 1) * 32 <= i64::MAX,
    ensures
        final(y)@ == Seq::new(1024, |k: int| height_after_lower(old(y)@[k] as int, *o, k) as i64),
{
    let top: i64 = (o.pos.py + 1) * 32;
    let bottom: i64 = o.pos.py * 32;
    let mut k: usize = 0;
    while k < 1024
        invariant
            k <= 1024,
            y@.len() == 1024,
            o.wf(),
            top == (o.pos.py + 1) * 32,
            bottom == o.pos.py * 32,
            forall|k2: int| 0 <= k2 < k ==> #[trigger] y@[k2] == height_after_lower(old(y)@[k2] as int, *o, k2) as i64,
            forall|k2: int| k <= k2 < 1024 ==> #[trigger] y@[k2] == old(y)@[k2],
        decreases 1024 - k,
    {
        let v = y[k];
        if v < top {
            match column_top(o, (k / 32) as u32, (k % 32) as u32) {
                Some(t) => {
                    y.set(k, bottom + t as i64);
                },
                None => {},
            }
        }
        k = k + 1;
    }
    assert(y@ =~= Seq::new(1024, |k: int| height_after_lower(old(y)@[k] as int, *o, k) as i64));
}

} // verus!

verus! {

/// Reading a block after writing it gives the written block, and every other
/// block of the world is unchanged
pub proof fn law_get_block_after_set_block(w1: World, w2: World, pos: BlockPos, block: BlockId, other: BlockPos)
    requires
        w1.wf(),
        w2.view() == view_after_set_block(w1.view(), pos, block),
    ensures
        w2.spec_block(pos) == block,
        other != pos ==> w2.spec_block(other) == w1.spec_block(other),
{
    lemma_block_pos_decomposition(pos);
    lemma_block_pos_decomposition(other);
    let c = pos.spec_containing_chunk_pos();
    let (x, y, z) = pos.spec_pos_in_containing_chunk();
    let (ox, oy, oz) = other.spec_pos_in_containing_chunk();
    lemma_block_index_injective(x, y, z, x, y, z);
    if w1.view().dom().contains(c) {
        let k = choose|k: int| 0 <= k < w1.chunks@.len() && #[trigger] w1.chunks@[k].pos == c;
        lemma_chunks_view_at(w1.chunks@, k);
        assert(w1.chunks@[k].wf());
    }
    if other != pos && other.spec_containing_chunk_pos() == c {
        lemma_block_index_injective(x, y, z, ox, oy, oz);
    }
}

} // verus!

verus! {

/// Distinct positions inside a chunk are stored at distinct indices, all in range
pub proof fn lemma_block_index_injective(x1: u32, y1: u32, z1: u32, x2: u32, y2: u32, z2: u32)
    requires
        x1 < 32 && y1 < 32 && z1 < 32,
        x2 < 32 && y2 < 32 && z2 < 32,
    ensures
        0 <= block_index(x1, y1, z1) < chunk_volume(),
        block_index(x1, y1, z1) == block_index(x2, y2, z2) ==> x1 == x2 && y1 == y2 && z1 == z2,
{
    assert(0 <= block_index(x1, y1, z1) < chunk_volume()) by (nonlinear_arith)
        requires x1 < 32 && y1 < 32 && z1 < 32;
    assert(block_index(x1, y1, z1) == block_index(x2, y2, z2) ==> x1 == x2 && y1 == y2 && z1 == z2) by (nonlinear_arith)
        requires x1 < 32 && y1 < 32 && z1 < 32, x2 < 32 && y2 < 32 && z2 < 32;
}


/// A world generator
pub trait WorldGenerator {
    /// Whether the generator is in a state from which it can generate chunks
    spec fn generator_wf(&self) -> bool;

    /// Whether the generator can generate the chunk at `pos` now, with the
    /// ground made of `blocks`
    spec fn can_generate_at(&self, pos: ChunkPos, blocks: TopologyBlocks) -> bool;

    /// Generate the chunk at position `pos`
    fn generate_chunk(&mut self, pos: ChunkPos, blocks: &TopologyBlocks) -> (r: Chunk)
        requires
            old(self).generator_wf(),
            old(self).can_generate_at(pos, *blocks),
        ensures
            final(self).generator_wf(),
            r.wf(),
            r.pos == pos,
    ;
}


impl BlockContainer for World {
    open spec fn container_wf(&self) -> bool {
        self.wf()
    }

    open spec fn spec_block_full(&self, pos: BlockPos) -> bool {
        self.spec_block(pos) != 0
    }

    fn is_block_full(&self, pos: BlockPos) -> (b: bool) {
        self.get_block(pos) != 0
    }
}


/// Reading a block of a chunk after setting one gives the block set at that
/// position and the former block elsewhere
pub proof fn law_chunk_get_after_set(c1: Chunk, c2: Chunk, p: (u32, u32, u32), block: BlockId, q: (u32, u32, u32))
    requires
        c1.wf(),
        p.0 < 32 && p.1 < 32 && p.2 < 32,
        q.0 < 32 && q.1 < 32 && q.2 < 32,
        c2.blocks() == c1.blocks().update(block_index(p.0, p.1, p.2), block),
    ensures
        c2.block_at(q.0, q.1, q.2) == if q == p {
            block
        } else {
            c1.block_at(q.0, q.1, q.2)
        },
{
    lemma_block_index_injective(p.0, p.1, p.2, q.0, q.1, q.2);
}

} // verus!

verus! {

/// The highest block of column (x, z) that is not air, among the heights below
/// `n`, is the one at `t` when the block at `t` is not air and those above it are
proof fn lemma_top_in_column_at(d: Seq<BlockId>, x: int, z: int, n: int, t: int)
    requires
        0 <= t < n <= 32,
        d[x * 1024 + t * 32 + z] != 0,
        forall|t2: int| t < t2 < 32 ==> #[trigger] d[x * 1024 + t2 * 32 + z] == 0,
    ensures
        top_in_column(d, x, z, n) == Some(t),
    decreases n,
{
    if n - 1 != t {
        assert(d[x * 1024 + (n - 1) * 32 + z] == 0);
        lemma_top_in_column_at(d, x, z, n - 1, t);
    }
}

/// Scanning lower chunks leaves a height that is at or above the bottom of the
/// chunk at `pos` as it is
proof fn lemma_lower_keeps_high(y: Seq<i64>, chunks: Seq<Chunk>, n: int, pos: ChunkPos, k: int)
    requires
        0 <= k < y.len(),
        y[k] >= pos.py * 32,
        n <= chunks.len(),
    ensures
        heights_after_lower(y, chunks, n, pos).len() == y.len(),
        heights_after_lower(y, chunks, n, pos)[k] == y[k],
    decreases n,
{
    if n > 0 {
        lemma_lower_keeps_high(y, chunks, n - 1, pos, k);
        let prev = heights_after_lower(y, chunks, n - 1, pos);
        let o = chunks[n - 1];
        if lower_in_column(o.pos, pos) {
            assert((o.pos.py + 1) * 32 <= pos.py * 32);
            assert(height_after_lower(prev[k] as int, o, k) == prev[k]);
        }
    }
}

/// Updating the heights after a change of the chunk at `pos` records, for every
/// block column whose height was below the top of the chunk and that holds a
/// block that is not air in the chunk, the height of the highest such block:
/// the block at the recorded height is not air, and no block above it in the
/// chunk is
pub proof fn law_update_records_highest_block(y: Seq<i64>, chunks: Seq<Chunk>, d: Seq<BlockId>, pos: ChunkPos, k: int, t: int)
    requires
        y.len() == 1024,
        d.len() == 32768,
        i64::MIN <= pos.py * 32,
        (pos.py + 1) * 32 <= i64::MAX,
        0 <= k < 1024,
        y[k] < (pos.py + 1) * 32,
        0 <= t < 32,
        d[(k / 32) * 1024 + t * 32 + k % 32] != 0,
        forall|t2: int| t < t2 < 32 ==> #[trigger] d[(k / 32) * 1024 + t2 * 32 + k % 32] == 0,
    ensures
        updated_heights(y, chunks, d, pos).len() == 1024,
        updated_heights(y, chunks, d, pos)[k] == pos.py * 32 + t,
{
    lemma_top_in_column_at(d, k / 32, k % 32, 32, t);
    let first = heights_after_chunk(y, pos.py as int, d);
    assert(first[k] == pos.py * 32 + t);
    if exists|k2: int| 0 <= k2 < y.len() && #[trigger] column_emptied(y[k2] as int, pos.py as int, d, k2) {
        lemma_lower_keeps_high(first, chunks, chunks.len() as int, pos, k);
    }
}

} // verus!
