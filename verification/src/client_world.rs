use vstd::prelude::*;
use std::sync::Arc;
use crate::chunk::{BlockId, Chunk, ChunkPos, block_index};
use crate::greedy::ChunkMeshData;
use crate::light::LightChunk;
use crate::player::{CloseChunks, RenderDistance};
use crate::world::BlockPos;
use crate::worldgen::{is_neighbor, neighbor_index, offset_pos, lemma_offset_index, lemma_neighbor_offset};

verus! {

/// Something made of blocks, some of which are full
pub trait BlockContainer {
    /// Whether the container is in a state where its blocks can be read
    spec fn container_wf(&self) -> bool;

    /// Whether the block at `pos` is full
    spec fn spec_block_full(&self, pos: BlockPos) -> bool;

    /// Whether the block at `pos` is full
    fn is_block_full(&self, pos: BlockPos) -> (b: bool)
        requires
            self.container_wf(),
        ensures
            b == self.spec_block_full(pos),
    ;
}

/// Whether some block of the box from `min` (included) to `max` (excluded) is full
pub open spec fn box_has_full_block<BC: BlockContainer>(world: &BC, min: (i64, i64, i64), max: (i64, i64, i64)) -> bool {
    exists|x: i64, y: i64, z: i64|
        min.0 <= x < max.0 && min.1 <= y < max.1 && min.2 <= z < max.2 && #[trigger] world.spec_block_full(
            BlockPos { px: x, py: y, pz: z },
        )
}

/// Whether some block of the box from `min` (included) to `max` (excluded) is full
pub fn any_block_full<BC: BlockContainer>(world: &BC, min: (i64, i64, i64), max: (i64, i64, i64)) -> (b: bool)
    requires
        world.container_wf(),
    ensures
        b == box_has_full_block(world, min, max),
{
    let mut i = min.0;
    while i < max.0
        invariant
            world.container_wf(),
            min.0 <= i,
            i <= max.0 || i == min.0,
            forall|x: i64, y: i64, z: i64|
                min.0 <= x < i && min.1 <= y < max.1 && min.2 <= z < max.2 ==> !#[trigger] world.spec_block_full(
                    BlockPos { px: x, py: y, pz: z },
                ),
        decreases max.0 - i,
    {
        let mut j = min.1;
        while j < max.1
            invariant
                world.container_wf(),
                min.0 <= i < max.0,
                min.1 <= j,
                j <= max.1 || j == min.1,
                forall|x: i64, y: i64, z: i64|
                    min.0 <= x < i && min.1 <= y < max.1 && min.2 <= z < max.2 ==> !#[trigger] world.spec_block_full(
                        BlockPos { px: x, py: y, pz: z },
                    ),
                forall|y: i64, z: i64|
                    min.1 <= y < j && min.2 <= z < max.2 ==> !#[trigger] world.spec_block_full(
                        BlockPos { px: i, py: y, pz: z },
                    ),
            decreases max.1 - j,
        {
            let mut k = min.2;
            while k < max.2
                invariant
                    world.container_wf(),
                    min.0 <= i < max.0,
                    min.1 <= j < max.1,
                    min.2 <= k,
                    k <= max.2 || k == min.2,
                    forall|x: i64, y: i64, z: i64|
                        min.0 <= x < i && min.1 <= y < max.1 && min.2 <= z < max.2 ==> !#[trigger] world.spec_block_full(
                            BlockPos { px: x, py: y, pz: z },
                        ),
                    forall|y: i64, z: i64|
                        min.1 <= y < j && min.2 <= z < max.2 ==> !#[trigger] world.spec_block_full(
                            BlockPos { px: i, py: y, pz: z },
                        ),
                    forall|z: i64| min.2 <= z < k ==> !#[trigger] world.spec_block_full(BlockPos { px: i, py: j, pz: z }),
                decreases max.2 - k,
            {
                let pos = BlockPos::from_coords(i, j, k);
                if world.is_block_full(pos) {
                    assert(pos == BlockPos { px: i, py: j, pz: k });
                    assert(world.spec_block_full(BlockPos { px: i, py: j, pz: k }));
                    return true;
                }
                k = k + 1;
            }
            j = j + 1;
        }
        i = i + 1;
    }
    false
}

/// The data the client keeps for each chunk
pub struct ClientChunk {
    /// The chunk itself
    pub chunk: Arc<Chunk>,
    /// The light chunk
    pub light_chunk: Arc<LightChunk>,
    /// True if the chunk is in the meshing queue
    pub is_in_meshing_queue: bool,
    /// True if the chunk needs to be meshed, because it never was or because it changed
    pub needs_remesh: bool,
}

/// The chunk and the light chunk of an entry have one value per block
pub open spec fn entry_wf(c: ClientChunk) -> bool {
    c.chunk.wf() && c.light_chunk.wf()
}

/// The entries of a sequence of client chunks are at pairwise distinct positions
pub open spec fn entries_distinct(s: Seq<ClientChunk>) -> bool {
    forall|i: int, j: int| 0 <= i < s.len() && 0 <= j < s.len() && i != j ==> #[trigger] s[i].chunk.pos != #[trigger] s[j].chunk.pos
}

/// Whether some entry of the sequence is at `p`
pub open spec fn entries_have(s: Seq<ClientChunk>, p: ChunkPos) -> bool {
    exists|i: int| 0 <= i < s.len() && #[trigger] s[i].chunk.pos == p
}

/// The entries of a sequence of client chunks, by position
pub open spec fn entries_view(s: Seq<ClientChunk>) -> Map<ChunkPos, ClientChunk> {
    Map::new(
        |p: ChunkPos| entries_have(s, p),
        |p: ChunkPos| s[choose|i: int| 0 <= i < s.len() && #[trigger] s[i].chunk.pos == p],
    )
}

/// In a sequence with distinct positions, the view at the position of an entry is that entry
proof fn lemma_entries_view_at(s: Seq<ClientChunk>, i: int)
    requires
        entries_distinct(s),
        0 <= i < s.len(),
    ensures
        entries_view(s).contains_key(s[i].chunk.pos),
        entries_view(s)[s[i].chunk.pos] == s[i],
{
    assert(entries_have(s, s[i].chunk.pos));
    let j = choose|j: int| 0 <= j < s.len() && #[trigger] s[j].chunk.pos == s[i].chunk.pos;
    assert(j == i);
}

/// Replacing an entry by one at the same position updates the view there
proof fn lemma_entries_view_update(s: Seq<ClientChunk>, i: int, c: ClientChunk)
    requires
        entries_distinct(s),
        0 <= i < s.len(),
        c.chunk.pos == s[i].chunk.pos,
    ensures
        entries_distinct(s.update(i, c)),
        entries_view(s.update(i, c)) == entries_view(s).insert(c.chunk.pos, c),
{
    let t = s.update(i, c);
    assert forall|a: int, b: int| 0 <= a < t.len() && 0 <= b < t.len() && a != b implies #[trigger] t[a].chunk.pos
        != #[trigger] t[b].chunk.pos by {
        assert(t[a].chunk.pos == s[a].chunk.pos && t[b].chunk.pos == s[b].chunk.pos);
    }
    assert forall|p: ChunkPos| #[trigger] entries_view(t).contains_key(p) <==> entries_view(s).insert(c.chunk.pos, c).contains_key(p) by {
        if entries_have(t, p) {
            let k = choose|k: int| 0 <= k < t.len() && #[trigger] t[k].chunk.pos == p;
            assert(s[k].chunk.pos == p);
        }
        if entries_have(s, p) {
            let k = choose|k: int| 0 <= k < s.len() && #[trigger] s[k].chunk.pos == p;
            assert(t[k].chunk.pos == p);
        }
    }
    assert forall|p: ChunkPos| #[trigger] entries_view(t).contains_key(p) implies entries_view(t)[p] == entries_view(s).insert(
        c.chunk.pos,
        c,
    )[p] by {
        let k = choose|k: int| 0 <= k < t.len() && #[trigger] t[k].chunk.pos == p;
        lemma_entries_view_at(t, k);
        if k != i {
            lemma_entries_view_at(s, k);
        }
    }
    assert(entries_view(t) =~= entries_view(s).insert(c.chunk.pos, c));
}

/// Appending an entry at a new position adds it to the view
proof fn lemma_entries_view_push(s: Seq<ClientChunk>, c: ClientChunk)
    requires
        entries_distinct(s),
        !entries_have(s, c.chunk.pos),
    ensures
        entries_distinct(s.push(c)),
        entries_view(s.push(c)) == entries_view(s).insert(c.chunk.pos, c),
{
    let t = s.push(c);
    assert forall|a: int, b: int| 0 <= a < t.len() && 0 <= b < t.len() && a != b implies #[trigger] t[a].chunk.pos
        != #[trigger] t[b].chunk.pos by {
        if a == s.len() {
            assert(s[b].chunk.pos == t[b].chunk.pos);
        } else if b == s.len() {
            assert(s[a].chunk.pos == t[a].chunk.pos);
        }
    }
    assert forall|p: ChunkPos| #[trigger] entries_view(t).contains_key(p) <==> entries_view(s).insert(c.chunk.pos, c).contains_key(p) by {
        if entries_have(t, p) {
            let k = choose|k: int| 0 <= k < t.len() && #[trigger] t[k].chunk.pos == p;
            if k < s.len() {
                assert(s[k].chunk.pos == p);
            }
        }
        if entries_have(s, p) {
            let k = choose|k: int| 0 <= k < s.len() && #[trigger] s[k].chunk.pos == p;
            assert(t[k].chunk.pos == p);
        }
        if p == c.chunk.pos {
            assert(t[s.len() as int].chunk.pos == p);
        }
    }
    assert forall|p: ChunkPos| #[trigger] entries_view(t).contains_key(p) implies entries_view(t)[p] == entries_view(s).insert(
        c.chunk.pos,
        c,
    )[p] by {
        let k = choose|k: int| 0 <= k < t.len() && #[trigger] t[k].chunk.pos == p;
        lemma_entries_view_at(t, k);
        if k < s.len() {
            assert(s[k] == t[k]);
            lemma_entries_view_at(s, k);
        }
    }
    assert(entries_view(t) =~= entries_view(s).insert(c.chunk.pos, c));
}

/// Find the index of the entry at `pos`
fn find_entry(entries: &Vec<ClientChunk>, pos: ChunkPos) -> (r: Option<usize>)
    ensures
        r is Some <==> entries_have(entries@, pos),
        r matches Some(i) ==> i < entries@.len() && entries@[i as int].chunk.pos == pos,
{
    let mut i: usize = 0;
    while i < entries.len()
        invariant
            i <= entries@.len(),
            forall|k: int| 0 <= k < i ==> #[trigger] entries@[k].chunk.pos != pos,
        decreases entries@.len() - i,
    {
        if entries[i].chunk.pos == pos {
            return Some(i);
        }
        i = i + 1;
    }
    None
}

/// The entry `c` marked as needing to be meshed again
pub open spec fn marked_for_remesh(c: ClientChunk) -> ClientChunk {
    ClientChunk { chunk: c.chunk, light_chunk: c.light_chunk, is_in_meshing_queue: c.is_in_meshing_queue, needs_remesh: true }
}

/// The chunks after receiving `chunk` with its light: it replaces any chunk at
/// its position and needs meshing, and the loaded chunks around it (itself
/// included) need meshing again
pub open spec fn after_add(
    m: Map<ChunkPos, ClientChunk>,
    chunk: Arc<Chunk>,
    light_chunk: Arc<LightChunk>,
) -> Map<ChunkPos, ClientChunk> {
    Map::new(
        |p: ChunkPos| m.contains_key(p) || p == chunk.pos,
        |p: ChunkPos|
            if p == chunk.pos {
                ClientChunk { chunk, light_chunk, is_in_meshing_queue: false, needs_remesh: true }
            } else if is_neighbor(chunk.pos, p) {
                marked_for_remesh(m[p])
            } else {
                m[p]
            },
    )
}

/// Whether the chunk at `p` is in render distance `rd` of the player's chunk
pub open spec fn within_distance(rd: RenderDistance, player_chunk: ChunkPos, p: ChunkPos) -> bool {
    rd.spec_is_chunk_visible(player_chunk, p)
}

/// Whether the entry at the chunk `c` away from `player_chunk` waits to be meshed
pub open spec fn waits_for_meshing(m: Map<ChunkPos, ClientChunk>, player_chunk: ChunkPos, c: ChunkPos) -> bool {
    let x = c.px + player_chunk.px;
    let y = c.py + player_chunk.py;
    let z = c.pz + player_chunk.pz;
    let p = ChunkPos { px: x as i64, py: y as i64, pz: z as i64 };
    &&& i64::MIN <= x <= i64::MAX
    &&& i64::MIN <= y <= i64::MAX
    &&& i64::MIN <= z <= i64::MAX
    &&& m.contains_key(p)
    &&& m[p].needs_remesh
    &&& !m[p].is_in_meshing_queue
}

/// The loaded chunks that wait to be meshed among the first `n` close chunks,
/// in order of the close chunks, as positions in the world
pub open spec fn meshing_candidates(m: Map<ChunkPos, ClientChunk>, player_chunk: ChunkPos, close: Seq<ChunkPos>, n: int) -> Seq<
    ChunkPos,
>
    decreases n,
{
    if n <= 0 {
        Seq::empty()
    } else {
        let prev = meshing_candidates(m, player_chunk, close, n - 1);
        let c = close[n - 1];
        if waits_for_meshing(m, player_chunk, c) {
            prev.push(
                ChunkPos {
                    px: (c.px + player_chunk.px) as i64,
                    py: (c.py + player_chunk.py) as i64,
                    pz: (c.pz + player_chunk.pz) as i64,
                },
            )
        } else {
            prev
        }
    }
}

/// Client-side world: the chunks received from the server, their meshing
/// status, and the chunks the player can see
pub struct ClientWorld {
    chunks: Vec<ClientChunk>,
    close_chunks: CloseChunks,
}

impl ClientWorld {
    /// The loaded chunks, by position
    pub closed spec fn view(&self) -> Map<ChunkPos, ClientChunk> {
        entries_view(self.chunks@)
    }

    /// The chunks close to the player, sorted by distance
    pub closed spec fn close(&self) -> CloseChunks {
        self.close_chunks
    }

    /// Each position is loaded once, each loaded chunk is well formed, and the
    /// close chunks are those of their render distance
    pub closed spec fn wf(&self) -> bool {
        &&& entries_distinct(self.chunks@)
        &&& forall|i: int| 0 <= i < self.chunks@.len() ==> entry_wf(#[trigger] self.chunks@[i])
        &&& self.close_chunks.wf()
    }

    /// Create a new empty world
    pub fn new() -> (w: ClientWorld)
        ensures
            w.wf(),
            w.view() == Map::<ChunkPos, ClientChunk>::empty(),
            w.close().wf(),
            w.close().distance() == (RenderDistance { x_max: 1, x_min: 1, y_max: 1, y_min: 1, z_max: 1, z_min: 1 }),
    {
        let rd = RenderDistance::default();
        let w = ClientWorld { chunks: Vec::new(), close_chunks: CloseChunks::new(&rd) };
        assert(w.view() =~= Map::<ChunkPos, ClientChunk>::empty());
        w
    }

    /// Number of loaded chunks
    pub fn num_loaded_chunks(&self) -> (n: usize)
        requires
            self.wf(),
        ensures
            n == self.view().dom().len(),
    {
        proof {
            self.lemma_view_len();
        }
        self.chunks.len()
    }

    /// The number of loaded chunks is the number of entries
    proof fn lemma_view_len(&self)
        requires
            self.wf(),
        ensures
            self.view().dom().finite(),
            self.view().dom().len() == self.chunks@.len(),
        decreases self.chunks@.len(),
    {
        lemma_entries_len(self.chunks@);
    }

    /// Receive a new chunk from the server
    pub fn add_chunk(&mut self, chunk: Arc<Chunk>, light_chunk: Arc<LightChunk>)
        requires
            old(self).wf(),
            chunk.wf(),
            light_chunk.wf(),
            i64::MIN + 1 <= chunk.pos.px <= i64::MAX - 1,
            i64::MIN + 1 <= chunk.pos.py <= i64::MAX - 1,
            i64::MIN + 1 <= chunk.pos.pz <= i64::MAX - 1,
        ensures
            final(self).wf(),
            final(self).view() == after_add(old(self).view(), chunk, light_chunk),
            final(self).close() == old(self).close(),
    {
        let chunk_pos = chunk.pos;
        let ghost m0 = self.view();
        let entry = ClientChunk { chunk, light_chunk, is_in_meshing_queue: false, needs_remesh: true };
        let ghost e = entry;
        match find_entry(&self.chunks, chunk_pos) {
            Some(i) => {
                proof {
                    lemma_entries_view_update(self.chunks@, i as int, entry);
                }
                let ghost s = self.chunks@;
                self.chunks.set(i, entry);
                proof {
                    assert forall|k: int| 0 <= k < self.chunks@.len() implies entry_wf(#[trigger] self.chunks@[k]) by {
                        if k != i {
                            assert(self.chunks@[k] == s[k]);
                        }
                    }
                }
            },
            None => {
                proof {
                    lemma_entries_view_push(self.chunks@, entry);
                }
                self.chunks.push(entry);
            },
        }
        let ghost m1 = self.view();
        assert(m1 == m0.insert(chunk_pos, e));
        let mut n: usize = 0;
        while n < 27
            invariant
                n <= 27,
                self.wf(),
                self.close() == old(self).close(),
                chunk_pos == e.chunk.pos,
                i64::MIN + 1 <= chunk_pos.px <= i64::MAX - 1,
                i64::MIN + 1 <= chunk_pos.py <= i64::MAX - 1,
                i64::MIN + 1 <= chunk_pos.pz <= i64::MAX - 1,
                m1 == m0.insert(chunk_pos, e),
                self.view().dom() == m1.dom(),
                forall|p: ChunkPos|
                    #[trigger] m1.contains_key(p) ==> self.view()[p] == (if is_neighbor(chunk_pos, p) && neighbor_index(
                        chunk_pos,
                        p,
                    ) < n {
                        marked_for_remesh(m1[p])
                    } else {
                        m1[p]
                    }),
            decreases 27 - n,
        {
            let dx = (n / 9) as i64 - 1;
            let dy = ((n / 3) % 3) as i64 - 1;
            let dz = (n % 3) as i64 - 1;
            let adjacent_chunk_pos = chunk_pos.offset(dx, dy, dz);
            proof {
                assert(adjacent_chunk_pos == offset_pos(chunk_pos, n as int));
                lemma_offset_index(chunk_pos, n as int);
            }
            let ghost v0 = self.view();
            if let Some(i) = find_entry(&self.chunks, adjacent_chunk_pos) {
                let ghost s = self.chunks@;
                let mut marked = self.chunks.remove(i);
                marked.needs_remesh = true;
                self.chunks.insert(i, marked);
                proof {
                    assert(marked == marked_for_remesh(s[i as int]));
                    assert(self.chunks@ =~= s.update(i as int, marked));
                    lemma_entries_view_at(s, i as int);
                    lemma_entries_view_update(s, i as int, marked);
                    assert forall|k: int| 0 <= k < self.chunks@.len() implies entry_wf(#[trigger] self.chunks@[k]) by {
                        if k != i {
                            assert(self.chunks@[k] == s[k]);
                        }
                    }
                    assert(self.view().dom() =~= m1.dom());
                    assert forall|p: ChunkPos| #[trigger] m1.contains_key(p) implies self.view()[p] == (if is_neighbor(
                        chunk_pos,
                        p,
                    ) && neighbor_index(chunk_pos, p) < n + 1 {
                        marked_for_remesh(m1[p])
                    } else {
                        m1[p]
                    }) by {
                        if is_neighbor(chunk_pos, p) {
                            lemma_neighbor_offset(chunk_pos, p);
                        }
                    }
                }
            } else {
                proof {
                    assert forall|p: ChunkPos| #[trigger] m1.contains_key(p) implies self.view()[p] == (if is_neighbor(
                        chunk_pos,
                        p,
                    ) && neighbor_index(chunk_pos, p) < n + 1 {
                        marked_for_remesh(m1[p])
                    } else {
                        m1[p]
                    }) by {
                        if is_neighbor(chunk_pos, p) {
                            lemma_neighbor_offset(chunk_pos, p);
                        }
                    }
                }
            }
            n = n + 1;
        }
        proof {
            assert forall|p: ChunkPos| #[trigger] self.view().contains_key(p) implies self.view()[p] == after_add(
                m0,
                e.chunk,
                e.light_chunk,
            )[p] by {
                if is_neighbor(chunk_pos, p) {
                    lemma_neighbor_offset(chunk_pos, p);
                }
                if p == chunk_pos {
                    lemma_offset_index(chunk_pos, 13);
                }
            }
            assert(self.view() =~= after_add(m0, e.chunk, e.light_chunk));
        }
    }
}

/// The view of a sequence of entries with distinct positions has as many
/// positions as entries
proof fn lemma_entries_len(s: Seq<ClientChunk>)
    requires
        entries_distinct(s),
    ensures
        entries_view(s).dom().finite(),
        entries_view(s).dom().len() == s.len(),
    decreases s.len(),
{
    if s.len() == 0 {
        assert(entries_view(s).dom() =~= Set::<ChunkPos>::empty());
    } else {
        let t = s.drop_last();
        assert(entries_distinct(t)) by {
            assert forall|a: int, b: int| 0 <= a < t.len() && 0 <= b < t.len() && a != b implies #[trigger] t[a].chunk.pos
                != #[trigger] t[b].chunk.pos by {
                assert(t[a] == s[a] && t[b] == s[b]);
            }
        }
        lemma_entries_len(t);
        assert(!entries_have(t, s.last().chunk.pos)) by {
            if entries_have(t, s.last().chunk.pos) {
                let k = choose|k: int| 0 <= k < t.len() && #[trigger] t[k].chunk.pos == s.last().chunk.pos;
                assert(s[k] == t[k]);
            }
        }
        lemma_entries_view_push(t, s.last());
        assert(t.push(s.last()) =~= s);
    }
}

/// The loaded chunks in render distance `rd` of the player's chunk
pub open spec fn visible_part(m: Map<ChunkPos, ClientChunk>, rd: RenderDistance, player_chunk: ChunkPos) -> Map<
    ChunkPos,
    ClientChunk,
> {
    Map::new(|p: ChunkPos| m.contains_key(p) && within_distance(rd, player_chunk, p), |p: ChunkPos| m[p])
}

/// Whether the chunk at `p` is in render distance `rd` of the player's chunk
fn visible_from(rd: RenderDistance, player_chunk: ChunkPos, p: ChunkPos) -> (b: bool)
    ensures
        b == within_distance(rd, player_chunk, p),
{
    let dx = p.px as i128 - player_chunk.px as i128;
    let dy = p.py as i128 - player_chunk.py as i128;
    let dz = p.pz as i128 - player_chunk.pz as i128;
    dx <= rd.x_max as i64 as i128 && dy <= rd.y_max as i64 as i128 && dz <= rd.z_max as i64 as i128 && -dx
        <= rd.x_min as i64 as i128 && -dy <= rd.y_min as i64 as i128 && -dz <= rd.z_min as i64 as i128
}

/// Another pointer to the value of `a`
#[verifier::external_body]
fn share<T>(a: &Arc<T>) -> (r: Arc<T>)
    ensures
        r == *a,
{
    Arc::clone(a)
}

/// The entry `c` out of the meshing queue
pub open spec fn out_of_queue(c: ClientChunk) -> ClientChunk {
    ClientChunk { chunk: c.chunk, light_chunk: c.light_chunk, is_in_meshing_queue: false, needs_remesh: c.needs_remesh }
}

/// The entry `c` put in the meshing queue
pub open spec fn queued(c: ClientChunk) -> ClientChunk {
    ClientChunk { chunk: c.chunk, light_chunk: c.light_chunk, is_in_meshing_queue: true, needs_remesh: false }
}

impl ClientWorld {
    /// A mesh of the chunk at `pos` came back from meshing: the chunk, if it is
    /// still loaded, leaves the meshing queue. Whether it is still loaded.
    pub fn mesh_received(&mut self, pos: ChunkPos) -> (loaded: bool)
        requires
            old(self).wf(),
        ensures
            final(self).wf(),
            loaded == old(self).view().contains_key(pos),
            loaded ==> final(self).view() == old(self).view().insert(pos, out_of_queue(old(self).view()[pos])),
            !loaded ==> final(self).view() == old(self).view(),
            final(self).close() == old(self).close(),
    {
        match find_entry(&self.chunks, pos) {
            Some(i) => {
                let ghost s = self.chunks@;
                let mut e = self.chunks.remove(i);
                e.is_in_meshing_queue = false;
                self.chunks.insert(i, e);
                proof {
                    assert(e == out_of_queue(s[i as int]));
                    assert(self.chunks@ =~= s.update(i as int, e));
                    lemma_entries_view_at(s, i as int);
                    lemma_entries_view_update(s, i as int, e);
                    assert forall|k: int| 0 <= k < self.chunks@.len() implies entry_wf(#[trigger] self.chunks@[k]) by {
                        if k != i {
                            assert(self.chunks@[k] == s[k]);
                        }
                    }
                }
                true
            },
            None => false,
        }
    }

    /// The chunk at `pos` was put in the meshing queue
    pub fn mark_queued(&mut self, pos: ChunkPos)
        requires
            old(self).wf(),
        ensures
            final(self).wf(),
            old(self).view().contains_key(pos) ==> final(self).view() == old(self).view().insert(
                pos,
                queued(old(self).view()[pos]),
            ),
            !old(self).view().contains_key(pos) ==> final(self).view() == old(self).view(),
            final(self).close() == old(self).close(),
    {
        if let Some(i) = find_entry(&self.chunks, pos) {
            let ghost s = self.chunks@;
            let mut e = self.chunks.remove(i);
            e.needs_remesh = false;
            e.is_in_meshing_queue = true;
            self.chunks.insert(i, e);
            proof {
                assert(e == queued(s[i as int]));
                assert(self.chunks@ =~= s.update(i as int, e));
                lemma_entries_view_at(s, i as int);
                lemma_entries_view_update(s, i as int, e);
                assert forall|k: int| 0 <= k < self.chunks@.len() implies entry_wf(#[trigger] self.chunks@[k]) by {
                    if k != i {
                        assert(self.chunks@[k] == s[k]);
                    }
                }
            }
        }
    }

    /// Remove the chunks that are too far from the player; the positions removed
    pub fn remove_far_chunks(&mut self, player_chunk: ChunkPos, render_distance: &RenderDistance) -> (removed: Vec<ChunkPos>)
        requires
            old(self).wf(),
        ensures
            final(self).wf(),
            final(self).view() == visible_part(old(self).view(), *render_distance, player_chunk),
            forall|p: ChunkPos|
                #[trigger] removed@.contains(p) <==> old(self).view().contains_key(p) && !within_distance(
                    *render_distance,
                    player_chunk,
                    p,
                ),
            final(self).close() == old(self).close(),
    {
        let ghost s0 = self.chunks@;
        let ghost rd = *render_distance;
        let total = self.chunks.len();
        let mut all: Vec<ClientChunk> = Vec::new();
        std::mem::swap(&mut all, &mut self.chunks);
        let mut kept: Vec<ClientChunk> = Vec::new();
        let mut removed: Vec<ChunkPos> = Vec::new();
        proof {
            assert(s0.take(0) =~= Seq::<ClientChunk>::empty());
            assert(entries_view(kept@) =~= visible_part(entries_view(s0.take(0)), rd, player_chunk));
        }
        let mut i: usize = 0;
        while all.len() > 0
            invariant
                entries_distinct(s0),
                forall|k: int| 0 <= k < s0.len() ==> entry_wf(#[trigger] s0[k]),
                s0.len() == total,
                i <= s0.len(),
                all@ == s0.skip(i as int),
                rd == *render_distance,
                entries_distinct(kept@),
                forall|k: int| 0 <= k < kept@.len() ==> entry_wf(#[trigger] kept@[k]),
                entries_view(kept@) == visible_part(entries_view(s0.take(i as int)), rd, player_chunk),
                forall|p: ChunkPos|
                    #[trigger] removed@.contains(p) <==> entries_have(s0.take(i as int), p) && !within_distance(
                        rd,
                        player_chunk,
                        p,
                    ),
            decreases all@.len(),
        {
            let e = all.remove(0);
            proof {
                assert(e == s0[i as int]);
                assert(all@ =~= s0.skip(i + 1));
                let t = s0.take(i as int);
                assert(s0.take(i + 1) =~= t.push(e));
                assert(entries_distinct(t)) by {
                    assert forall|a: int, b: int| 0 <= a < t.len() && 0 <= b < t.len() && a != b implies #[trigger] t[a].chunk.pos
                        != #[trigger] t[b].chunk.pos by {
                        assert(t[a] == s0[a] && t[b] == s0[b]);
                    }
                }
                assert(!entries_have(t, e.chunk.pos)) by {
                    if entries_have(t, e.chunk.pos) {
                        let k = choose|k: int| 0 <= k < t.len() && #[trigger] t[k].chunk.pos == e.chunk.pos;
                        assert(t[k] == s0[k]);
                    }
                }
                lemma_entries_view_push(t, e);
            }
            let pos = e.chunk.pos;
            if visible_from(*render_distance, player_chunk, pos) {
                proof {
                    assert(!entries_have(kept@, pos)) by {
                        if entries_have(kept@, pos) {
                            let k = choose|k: int| 0 <= k < kept@.len() && #[trigger] kept@[k].chunk.pos == pos;
                            assert(entries_view(kept@).contains_key(pos));
                        }
                    }
                    lemma_entries_view_push(kept@, e);
                }
                kept.push(e);
                proof {
                    assert(entries_view(kept@) =~= visible_part(entries_view(s0.take(i + 1)), rd, player_chunk));
                }
            } else {
                let ghost r0 = removed@;
                removed.push(pos);
                proof {
                    assert(entries_view(kept@) =~= visible_part(entries_view(s0.take(i + 1)), rd, player_chunk));
                    assert forall|p: ChunkPos| #[trigger] removed@.contains(p) <==> entries_have(s0.take(i + 1), p)
                        && !within_distance(rd, player_chunk, p) by {
                        assert(entries_view(s0.take(i + 1)).contains_key(p) == entries_have(s0.take(i + 1), p));
                        assert(entries_view(s0.take(i as int)).contains_key(p) == entries_have(s0.take(i as int), p));
                        if p == pos {
                            assert(removed@[removed@.len() - 1] == p);
                        }
                        if r0.contains(p) {
                            let k = choose|k: int| 0 <= k < r0.len() && r0[k] == p;
                            assert(removed@[k] == p);
                        }
                        if removed@.contains(p) && p != pos {
                            let k = choose|k: int| 0 <= k < removed@.len() && removed@[k] == p;
                            assert(k < r0.len());
                            assert(r0[k] == p);
                        }
                    }
                }
            }
            proof {
                assert forall|p: ChunkPos| #[trigger] removed@.contains(p) <==> entries_have(s0.take(i + 1), p)
                    && !within_distance(rd, player_chunk, p) by {
                    assert(entries_view(s0.take(i + 1)).contains_key(p) == entries_have(s0.take(i + 1), p));
                    assert(entries_view(s0.take(i as int)).contains_key(p) == entries_have(s0.take(i as int), p));
                }
            }
            i = i + 1;
        }
        proof {
            assert(i == s0.len()) by {
                assert(s0.skip(i as int).len() == 0);
            }
            assert(s0.take(i as int) =~= s0);
        }
        self.chunks = kept;
        removed
    }

    /// Update the close chunks for `render_distance` and list the loaded chunks
    /// around the player that wait to be meshed, closest first
    pub fn chunks_to_mesh(&mut self, player_chunk: ChunkPos, render_distance: &RenderDistance) -> (r: Vec<ChunkPos>)
        requires
            old(self).wf(),
            render_distance.distances_fit(),
        ensures
            final(self).wf(),
            final(self).view() == old(self).view(),
            final(self).close().wf(),
            final(self).close().distance() == *render_distance,
            *render_distance == old(self).close().distance() ==> final(self).close().chunks() == old(self).close().chunks(),
            r@ == meshing_candidates(
                final(self).view(),
                player_chunk,
                final(self).close().chunks(),
                final(self).close().chunks().len() as int,
            ),
            forall|i: int|
                0 <= i < r@.len() ==> final(self).view().contains_key(#[trigger] r@[i]) && final(self).view()[r@[i]].needs_remesh
                    && !final(self).view()[r@[i]].is_in_meshing_queue,
    {
        self.close_chunks.update(render_distance);
        let close = self.close_chunks.get_close_chunks();
        let mut r: Vec<ChunkPos> = Vec::new();
        let mut n: usize = 0;
        while n < close.len()
            invariant
                self.wf(),
                close@ == self.close().chunks(),
                n <= close@.len(),
                r@ == meshing_candidates(self.view(), player_chunk, close@, n as int),
            decreases close@.len() - n,
        {
            let c = close[n];
            let x = c.px.checked_add(player_chunk.px);
            let y = c.py.checked_add(player_chunk.py);
            let z = c.pz.checked_add(player_chunk.pz);
            if x.is_some() && y.is_some() && z.is_some() {
                let pos = ChunkPos::from_coords(x.unwrap(), y.unwrap(), z.unwrap());
                if let Some(i) = find_entry(&self.chunks, pos) {
                    proof {
                        lemma_entries_view_at(self.chunks@, i as int);
                    }
                    if self.chunks[i].needs_remesh && !self.chunks[i].is_in_meshing_queue {
                        r.push(pos);
                    }
                }
            }
            n = n + 1;
        }
        proof {
            assert forall|i: int|
                0 <= i < r@.len() implies self.view().contains_key(#[trigger] r@[i]) && self.view()[r@[i]].needs_remesh
                    && !self.view()[r@[i]].is_in_meshing_queue by {
                law_mesh_candidates_wait(self.view(), player_chunk, close@, close@.len() as int, i);
            }
        }
        r
    }

    /// The data needed to mesh the loaded chunk at `pos`: the chunk, its light,
    /// and the loaded chunks around it with their light
    pub fn create_chunk_mesh_data(&self, pos: ChunkPos) -> (r: ChunkMeshData)
        requires
            self.wf(),
            self.view().contains_key(pos),
            i64::MIN + 1 <= pos.px <= i64::MAX - 1,
            i64::MIN + 1 <= pos.py <= i64::MAX - 1,
            i64::MIN + 1 <= pos.pz <= i64::MAX - 1,
        ensures
            r.wf(),
            r.chunk == self.view()[pos].chunk,
            r.light_chunk == self.view()[pos].light_chunk,
            forall|t: int|
                0 <= t < 27 ==> #[trigger] r.all_chunks@[t] == (if self.view().contains_key(offset_pos(pos, t)) {
                    Some(self.view()[offset_pos(pos, t)].chunk)
                } else {
                    None
                }),
            forall|t: int|
                0 <= t < 27 ==> #[trigger] r.all_light_chunks@[t] == (if self.view().contains_key(offset_pos(pos, t)) {
                    Some(self.view()[offset_pos(pos, t)].light_chunk)
                } else {
                    None
                }),
    {
        let mut all_chunks: [Option<Arc<Chunk>>; 27] = [
            None, None, None, None, None, None, None, None, None,
            None, None, None, None, None, None, None, None, None,
            None, None, None, None, None, None, None, None, None,
        ];
        let mut all_light_chunks: [Option<Arc<LightChunk>>; 27] = [
            None, None, None, None, None, None, None, None, None,
            None, None, None, None, None, None, None, None, None,
            None, None, None, None, None, None, None, None, None,
        ];
        let mut n: usize = 0;
        while n < 27
            invariant
                self.wf(),
                n <= 27,
                i64::MIN + 1 <= pos.px <= i64::MAX - 1,
                i64::MIN + 1 <= pos.py <= i64::MAX - 1,
                i64::MIN + 1 <= pos.pz <= i64::MAX - 1,
                forall|t: int|
                    0 <= t < 27 ==> #[trigger] all_chunks@[t] == (if t < n && self.view().contains_key(offset_pos(pos, t)) {
                        Some(self.view()[offset_pos(pos, t)].chunk)
                    } else {
                        None
                    }),
                forall|t: int|
                    0 <= t < 27 ==> #[trigger] all_light_chunks@[t] == (if t < n && self.view().contains_key(
                        offset_pos(pos, t),
                    ) {
                        Some(self.view()[offset_pos(pos, t)].light_chunk)
                    } else {
                        None
                    }),
            decreases 27 - n,
        {
            let np = pos.offset((n / 9) as i64 - 1, ((n / 3) % 3) as i64 - 1, (n % 3) as i64 - 1);
            assert(np == offset_pos(pos, n as int));
            if let Some(i) = find_entry(&self.chunks, np) {
                proof {
                    lemma_entries_view_at(self.chunks@, i as int);
                }
                all_chunks[n] = Some(share(&self.chunks[i].chunk));
                all_light_chunks[n] = Some(share(&self.chunks[i].light_chunk));
            }
            n = n + 1;
        }
        let i = find_entry(&self.chunks, pos).unwrap();
        proof {
            lemma_entries_view_at(self.chunks@, i as int);
            assert forall|t: int| 0 <= t < 27 implies (#[trigger] all_chunks@[t] matches Some(c) ==> c.wf()) by {
                if self.view().contains_key(offset_pos(pos, t)) {
                    let k = choose|k: int| 0 <= k < self.chunks@.len() && #[trigger] self.chunks@[k].chunk.pos == offset_pos(pos, t);
                    lemma_entries_view_at(self.chunks@, k);
                    assert(entry_wf(self.chunks@[k]));
                }
            }
            assert forall|t: int| 0 <= t < 27 implies (#[trigger] all_light_chunks@[t] matches Some(c) ==> c.wf()) by {
                if self.view().contains_key(offset_pos(pos, t)) {
                    let k = choose|k: int| 0 <= k < self.chunks@.len() && #[trigger] self.chunks@[k].chunk.pos == offset_pos(pos, t);
                    lemma_entries_view_at(self.chunks@, k);
                    assert(entry_wf(self.chunks@[k]));
                }
            }
        }
        ChunkMeshData {
            chunk: share(&self.chunks[i].chunk),
            light_chunk: share(&self.chunks[i].light_chunk),
            all_chunks,
            all_light_chunks,
        }
    }
}

/// Whether the loaded chunks hold a block other than air at `pos`
pub open spec fn client_block_full(m: Map<ChunkPos, ClientChunk>, pos: BlockPos) -> bool {
    let c = pos.spec_containing_chunk_pos();
    let q = pos.spec_pos_in_containing_chunk();
    m.contains_key(c) && m[c].chunk.blocks()[block_index(q.0, q.1, q.2)] != 0
}

impl BlockContainer for ClientWorld {
    open spec fn container_wf(&self) -> bool {
        self.wf()
    }

    open spec fn spec_block_full(&self, pos: BlockPos) -> bool {
        client_block_full(self.view(), pos)
    }

    fn is_block_full(&self, pos: BlockPos) -> (b: bool) {
        match find_entry(&self.chunks, pos.containing_chunk_pos()) {
            None => false,
            Some(i) => {
                proof {
                    lemma_entries_view_at(self.chunks@, i as int);
                    assert(entry_wf(self.chunks@[i as int]));
                }
                let q = pos.pos_in_containing_chunk();
                self.chunks[i].chunk.get_block_at(q) != 0
            },
        }
    }
}

} // verus!

verus! {

/// Every chunk handed out for meshing is loaded, needs remeshing and is not in
/// the meshing queue already; and it is the close chunk it comes from, moved to
/// the player
pub proof fn law_mesh_candidates_wait(m: Map<ChunkPos, ClientChunk>, player_chunk: ChunkPos, close: Seq<ChunkPos>, n: int, i: int)
    requires
        0 <= i < meshing_candidates(m, player_chunk, close, n).len(),
    ensures
        m.contains_key(meshing_candidates(m, player_chunk, close, n)[i]),
        m[meshing_candidates(m, player_chunk, close, n)[i]].needs_remesh,
        !m[meshing_candidates(m, player_chunk, close, n)[i]].is_in_meshing_queue,
        exists|j: int|
            0 <= j < n && #[trigger] close[j].px + player_chunk.px == meshing_candidates(m, player_chunk, close, n)[i].px
                && close[j].py + player_chunk.py == meshing_candidates(m, player_chunk, close, n)[i].py && close[j].pz
                + player_chunk.pz == meshing_candidates(m, player_chunk, close, n)[i].pz,
    decreases n,
{
    if n > 0 {
        let prev = meshing_candidates(m, player_chunk, close, n - 1);
        if i < prev.len() {
            law_mesh_candidates_wait(m, player_chunk, close, n - 1, i);
            let j = choose|j: int|
                0 <= j < n - 1 && #[trigger] close[j].px + player_chunk.px == prev[i].px && close[j].py + player_chunk.py
                    == prev[i].py && close[j].pz + player_chunk.pz == prev[i].pz;
            assert(close[j].px + player_chunk.px == meshing_candidates(m, player_chunk, close, n)[i].px);
        } else {
            assert(close[n - 1].px + player_chunk.px == meshing_candidates(m, player_chunk, close, n)[i].px);
        }
    }
}

} // verus!
