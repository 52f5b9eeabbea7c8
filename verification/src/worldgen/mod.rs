use vstd::prelude::*;
use std::collections::HashSet;
use crate::chunk::{BlockId, Chunk, ChunkPos, ChunkPosXZ, block_index, chunk_volume};
use crate::world::{BlockPos, WorldGenerator, chunk_positions_distinct, chunks_view, find_chunk_index, lemma_chunks_view_at, lemma_chunks_view_remove, lemma_chunks_view_push};
use crate::worldgen::decorator::{Decorator, DecoratorPass};
use crate::worldgen::perlin::{rand_pos_int, spec_rand_pos_int, rand_pos_fits, rand_pos_fits_check};
use crate::worldgen::topology::{HeightMap, TopologyBlocks, topology_block, chunk_floor, topology_fits, topology_fits_check, generate_chunk_topology};

pub mod perlin;
pub mod decorator;
pub mod topology;

verus! {

broadcast use vstd::std_specs::hash::group_hash_axioms;

/// A block that a decorator will place
#[derive(Debug, Clone, Copy, PartialEq, Eq, Structural)]
pub struct BlockToPlace {
    pub pos: BlockPos,
    pub id: u16,
}

impl BlockToPlace {
    /// The block `id` at world position `(x, y, z)`
    pub fn new(p: (i64, i64, i64), id: u16) -> (b: BlockToPlace)
        ensures
            b.pos.px == p.0,
            b.pos.py == p.1,
            b.pos.pz == p.2,
            b.id == id,
    {
        BlockToPlace { pos: BlockPos::from_coords(p.0, p.1, p.2), id }
    }
}

/// A coordinate far enough from the ends of the `i64` range that block
/// coordinates derived from it while decorating stay in range
pub open spec fn coord_in_range(v: i64) -> bool {
    i64::MIN / 64 <= v <= i64::MAX / 64
}

/// The coordinates of a chunk position are in range for decorating
pub open spec fn chunk_pos_in_range(p: ChunkPos) -> bool {
    coord_in_range(p.px) && coord_in_range(p.py) && coord_in_range(p.pz)
}

/// The coordinates of a relative block position are in range for decorating
pub open spec fn block_pos_in_range(p: BlockPos) -> bool {
    coord_in_range(p.px) && coord_in_range(p.py) && coord_in_range(p.pz)
}

/// The positions of a sequence of chunks
pub open spec fn chunk_positions(s: Seq<Chunk>) -> Seq<ChunkPos> {
    Seq::new(s.len(), |i: int| s[i].pos)
}

/// The blocks of a sequence of chunks
pub open spec fn chunk_blocks(s: Seq<Chunk>) -> Seq<Seq<BlockId>> {
    Seq::new(s.len(), |i: int| s[i].blocks())
}

/// Offset, along `axis`, inside the chunk at `c`, of the block where the
/// `l`-th try of a decorator in that chunk starts
pub open spec fn try_offset(c: ChunkPos, l: int, axis: int) -> int {
    (spec_rand_pos_int(c.px as i32, c.py as i32, c.pz as i32, (3 * l + axis) as i32) as int) % 32
}

/// World position of the block where the `l`-th try in the chunk at `c` starts
pub open spec fn try_start(c: ChunkPos, l: int) -> BlockPos {
    BlockPos {
        px: (c.px * 32 + try_offset(c, l, 0)) as i64,
        py: (c.py * 32 + try_offset(c, l, 1)) as i64,
        pz: (c.pz * 32 + try_offset(c, l, 2)) as i64,
    }
}

/// Position `q` relative to `b`
pub open spec fn shifted(q: BlockPos, b: BlockPos) -> BlockPos {
    BlockPos { px: (q.px + b.px) as i64, py: (q.py + b.py) as i64, pz: (q.pz + b.pz) as i64 }
}

/// Whether `p` lies in the 3x3x3 chunks whose lowest chunk is at `o`
pub open spec fn in_region(o: ChunkPos, p: BlockPos) -> bool {
    &&& o.px * 32 <= p.px < (o.px + 3) * 32
    &&& o.py * 32 <= p.py < (o.py + 3) * 32
    &&& o.pz * 32 <= p.pz < (o.pz + 3) * 32
}

/// Whether `p` lies in the middle chunk of the 3x3x3 chunks whose lowest chunk is at `o`
pub open spec fn in_center(o: ChunkPos, p: BlockPos) -> bool {
    &&& (o.px + 1) * 32 <= p.px < (o.px + 2) * 32
    &&& (o.py + 1) * 32 <= p.py < (o.py + 2) * 32
    &&& (o.pz + 1) * 32 <= p.pz < (o.pz + 2) * 32
}

/// Index, among the 3x3x3 chunks whose lowest chunk is at `o`, of the chunk that holds `p`
pub open spec fn region_index(o: ChunkPos, p: BlockPos) -> int {
    let c = p.spec_containing_chunk_pos();
    (c.px - o.px) * 9 + (c.py - o.py) * 3 + (c.pz - o.pz)
}

/// The block at `p` in the 3x3x3 chunks with blocks `bl` whose lowest chunk is at `o`
pub open spec fn region_block(o: ChunkPos, bl: Seq<Seq<BlockId>>, p: BlockPos) -> BlockId {
    let q = p.spec_pos_in_containing_chunk();
    bl[region_index(o, p)][block_index(q.0, q.1, q.2)]
}

/// Whether a pass may put its block at `p`: `p` is in the chunks, and the
/// block there may be replaced or does not stop the structure
pub open spec fn position_fits(pass: DecoratorPass, o: ChunkPos, bl: Seq<Seq<BlockId>>, p: BlockPos) -> bool {
    &&& in_region(o, p)
    &&& (pass.block_whitelist@.contains(region_block(o, bl, p)) || pass.block_non_blocking@.contains(
        region_block(o, bl, p),
    ))
}

/// Whether every block of a pass, relative to `b`, may be put
pub open spec fn pass_fits(pass: DecoratorPass, o: ChunkPos, bl: Seq<Seq<BlockId>>, b: BlockPos) -> bool {
    forall|n: int| 0 <= n < pass.block_pos@.len() ==> #[trigger] position_fits(pass, o, bl, shifted(pass.block_pos@[n], b))
}

/// The blocks that the first `n` positions of a pass, relative to `b`, place:
/// those whose current block may be replaced, in order
pub open spec fn pass_placements(pass: DecoratorPass, o: ChunkPos, bl: Seq<Seq<BlockId>>, b: BlockPos, n: int) -> Seq<
    BlockToPlace,
>
    decreases n,
{
    if n <= 0 {
        Seq::empty()
    } else {
        let prev = pass_placements(pass, o, bl, b, n - 1);
        let p = shifted(pass.block_pos@[n - 1], b);
        if pass.block_whitelist@.contains(region_block(o, bl, p)) {
            prev.push(BlockToPlace { pos: p, id: pass.block_type })
        } else {
            prev
        }
    }
}

/// Number of tries per chunk of a decorator
pub open spec fn try_count(d: Decorator) -> int {
    if (d.number_of_try as i32) < 0 {
        0
    } else {
        (d.number_of_try as i32) as int
    }
}

/// Whether the `l`-th try in chunk `idx` succeeds: it starts on a block of
/// the start whitelist and every pass fits
pub open spec fn try_accepted(d: Decorator, ps: Seq<ChunkPos>, bl: Seq<Seq<BlockId>>, idx: int, l: int) -> bool {
    let c = ps[idx];
    &&& d.block_start_whitelist@.contains(
        bl[idx][block_index(try_offset(c, l, 0) as u32, try_offset(c, l, 1) as u32, try_offset(c, l, 2) as u32)],
    )
    &&& forall|w: int| 0 <= w < d.pass@.len() ==> #[trigger] pass_fits(d.pass@[w], ps[0], bl, try_start(c, l))
}

/// The blocks of pass `w` that the `l`-th try in chunk `idx` places
pub open spec fn try_placements(d: Decorator, ps: Seq<ChunkPos>, bl: Seq<Seq<BlockId>>, idx: int, l: int, w: int) -> Seq<
    BlockToPlace,
> {
    if try_accepted(d, ps, bl, idx, l) {
        let pass = d.pass@[w];
        pass_placements(pass, ps[0], bl, try_start(ps[idx], l), pass.block_pos@.len() as int)
    } else {
        Seq::empty()
    }
}

/// The blocks of pass `w` placed by the tries of slab `slab` (the nine chunks
/// with the same first offset) that come before try `l` of the `jk`-th chunk
/// of the slab
pub open spec fn slab_placements(
    d: Decorator,
    ps: Seq<ChunkPos>,
    bl: Seq<Seq<BlockId>>,
    slab: int,
    jk: int,
    l: int,
    w: int,
) -> Seq<BlockToPlace>
    decreases jk, l,
{
    if l > 0 {
        slab_placements(d, ps, bl, slab, jk, l - 1, w) + try_placements(d, ps, bl, slab * 9 + jk, l - 1, w)
    } else if jk > 0 {
        slab_placements(d, ps, bl, slab, jk - 1, try_count(d), w)
    } else {
        Seq::empty()
    }
}

/// The blocks of a chunk once the blocks of `list` that fall in it are placed, in order
pub open spec fn apply_list(blocks: Seq<BlockId>, o: ChunkPos, list: Seq<BlockToPlace>) -> Seq<BlockId>
    decreases list.len(),
{
    if list.len() == 0 {
        blocks
    } else {
        let prev = apply_list(blocks, o, list.drop_last());
        let b = list.last();
        if in_center(o, b.pos) {
            let q = b.pos.spec_pos_in_containing_chunk();
            prev.update(block_index(q.0, q.1, q.2), b.id)
        } else {
            prev
        }
    }
}

/// The blocks of a chunk once the lists are placed, one list after the other
pub open spec fn apply_all(blocks: Seq<BlockId>, o: ChunkPos, lists: Seq<Seq<BlockToPlace>>) -> Seq<BlockId>
    decreases lists.len(),
{
    if lists.len() == 0 {
        blocks
    } else {
        apply_list(apply_all(blocks, o, lists.drop_last()), o, lists.last())
    }
}

/// The blocks of the middle chunk after the first `slabs` slabs of a decoration
pub open spec fn decorated_center(d: Decorator, ps: Seq<ChunkPos>, bl: Seq<Seq<BlockId>>, slabs: int) -> Seq<BlockId>
    decreases slabs,
{
    if slabs <= 0 {
        bl[13]
    } else {
        let prev = decorated_center(d, ps, bl, slabs - 1);
        let now = bl.update(13, prev);
        apply_all(
            prev,
            ps[0],
            Seq::new(d.pass@.len(), |w: int| slab_placements(d, ps, now, slabs - 1, 9, 0, w)),
        )
    }
}

/// The additions made while drawing the start of the `l`-th try in the chunk
/// at `c`, along `axis`, do not overflow
pub open spec fn draw_fits(c: ChunkPos, l: int, axis: int) -> bool {
    rand_pos_fits(c.px as i32, c.py as i32, c.pz as i32, (3 * l + axis) as i32)
}

/// The coordinates met while decorating the chunks at `ps` stay in range
pub open spec fn decoration_fits(d: Decorator, ps: Seq<ChunkPos>) -> bool {
    &&& ps.len() == 27
    &&& forall|i: int| 0 <= i < 27 ==> #[trigger] chunk_pos_in_range(ps[i])
    &&& forall|w: int, n: int|
        0 <= w < d.pass@.len() && 0 <= n < d.pass@[w].block_pos@.len() ==> #[trigger] block_pos_in_range(
            d.pass@[w].block_pos@[n],
        )
    &&& (d.number_of_try as i32) <= 715827882
    &&& forall|i: int, l: int, axis: int|
        0 <= i < 27 && 0 <= l < try_count(d) && 0 <= axis < 3 ==> #[trigger] draw_fits(ps[i], l, axis)
}

/// The chunk coordinate of a block coordinate that lies in the three chunks from `o` on
proof fn lemma_region_axis(o: int, p: int)
    requires
        o * 32 <= p < (o + 3) * 32,
    ensures
        0 <= p / 32 - o < 3,
{
}

/// Check whether every pass of `decorator` fits with its blocks relative to
/// `t`, and collect, for each pass, the blocks it places
fn check_passes(chunks: &Vec<Chunk>, decorator: &Decorator, t: BlockPos) -> (r: (bool, Vec<Vec<BlockToPlace>>))
    requires
        chunks@.len() == 27,
        forall|i: int| 0 <= i < 27 ==> (#[trigger] chunks@[i]).wf(),
        decoration_fits(*decorator, chunk_positions(chunks@)),
        -0x4100_0000_0000_0000 <= t.px <= 0x4100_0000_0000_0000,
        -0x4100_0000_0000_0000 <= t.py <= 0x4100_0000_0000_0000,
        -0x4100_0000_0000_0000 <= t.pz <= 0x4100_0000_0000_0000,
    ensures
        r.0 == (forall|w: int|
            0 <= w < decorator.pass@.len() ==> #[trigger] pass_fits(
                decorator.pass@[w],
                chunks@[0].pos,
                chunk_blocks(chunks@),
                t,
            )),
        r.0 ==> r.1@.len() == decorator.pass@.len(),
        r.0 ==> forall|w: int|
            0 <= w < decorator.pass@.len() ==> (#[trigger] r.1@[w])@ == pass_placements(
                decorator.pass@[w],
                chunks@[0].pos,
                chunk_blocks(chunks@),
                t,
                decorator.pass@[w].block_pos@.len() as int,
            ),
{
    let ghost o = chunks@[0].pos;
    let ghost bl = chunk_blocks(chunks@);
    let o0 = chunks[0].pos;
    proof {
        let ps = chunk_positions(chunks@);
        assert(ps.len() == 27);
        assert(ps[0] == o0);
        assert(chunk_pos_in_range(ps[0]));
    }
    let min_x = o0.px * 32;
    let max_x = (o0.px + 3) * 32;
    let min_y = o0.py * 32;
    let max_y = (o0.py + 3) * 32;
    let min_z = o0.pz * 32;
    let max_z = (o0.pz + 3) * 32;
    let mut place = true;
    let mut lists: Vec<Vec<BlockToPlace>> = Vec::new();
    let mut w: usize = 0;
    while w < decorator.pass.len()
        invariant
            w <= decorator.pass@.len(),
            chunks@.len() == 27,
            forall|i: int| 0 <= i < 27 ==> (#[trigger] chunks@[i]).wf(),
            decoration_fits(*decorator, chunk_positions(chunks@)),
            o == chunks@[0].pos,
            o0 == o,
            bl == chunk_blocks(chunks@),
            min_x == o.px * 32,
            max_x == (o.px + 3) * 32,
            min_y == o.py * 32,
            max_y == (o.py + 3) * 32,
            min_z == o.pz * 32,
            max_z == (o.pz + 3) * 32,
            -0x4100_0000_0000_0000 <= t.px <= 0x4100_0000_0000_0000,
            -0x4100_0000_0000_0000 <= t.py <= 0x4100_0000_0000_0000,
            -0x4100_0000_0000_0000 <= t.pz <= 0x4100_0000_0000_0000,
            place == (forall|v: int| 0 <= v < w ==> #[trigger] pass_fits(decorator.pass@[v], o, bl, t)),
            lists@.len() == w,
            place ==> forall|v: int|
                0 <= v < w ==> (#[trigger] lists@[v])@ == pass_placements(
                    decorator.pass@[v],
                    o,
                    bl,
                    t,
                    decorator.pass@[v].block_pos@.len() as int,
                ),
        decreases decorator.pass@.len() - w,
    {
        let pass = &decorator.pass[w];
        let mut list: Vec<BlockToPlace> = Vec::new();
        let mut fits = true;
        let mut n: usize = 0;
        while n < pass.block_pos.len()
            invariant_except_break
                fits,
            invariant
                w < decorator.pass@.len(),
                *pass == decorator.pass@[w as int],
                n <= pass.block_pos@.len(),
                chunks@.len() == 27,
                forall|i: int| 0 <= i < 27 ==> (#[trigger] chunks@[i]).wf(),
                decoration_fits(*decorator, chunk_positions(chunks@)),
                o == chunks@[0].pos,
                o0 == o,
                bl == chunk_blocks(chunks@),
                min_x == o.px * 32,
                max_x == (o.px + 3) * 32,
                min_y == o.py * 32,
                max_y == (o.py + 3) * 32,
                min_z == o.pz * 32,
                max_z == (o.pz + 3) * 32,
                -0x4100_0000_0000_0000 <= t.px <= 0x4100_0000_0000_0000,
                -0x4100_0000_0000_0000 <= t.py <= 0x4100_0000_0000_0000,
                -0x4100_0000_0000_0000 <= t.pz <= 0x4100_0000_0000_0000,
                forall|m: int| 0 <= m < n ==> #[trigger] position_fits(*pass, o, bl, shifted(pass.block_pos@[m], t)),
                list@ == pass_placements(*pass, o, bl, t, n as int),
            ensures
                fits == pass_fits(*pass, o, bl, t),
                fits ==> list@ == pass_placements(*pass, o, bl, t, pass.block_pos@.len() as int),
            decreases pass.block_pos@.len() - n,
        {
            let q = pass.block_pos[n];
            proof {
                assert(block_pos_in_range(decorator.pass@[w as int].block_pos@[n as int]));
            }
            let pos = BlockPos::from_coords(q.px + t.px, q.py + t.py, q.pz + t.pz);
            assert(pos == shifted(pass.block_pos@[n as int], t));
            if pos.px >= min_x && pos.px < max_x && pos.py >= min_y && pos.py < max_y && pos.pz >= min_z && pos.pz < max_z {
                let cpos = pos.containing_chunk_pos();
                proof {
                    lemma_region_axis(o.px as int, pos.px as int);
                    lemma_region_axis(o.py as int, pos.py as int);
                    lemma_region_axis(o.pz as int, pos.pz as int);
                }
                let x = cpos.px - o0.px;
                let y = cpos.py - o0.py;
                let z = cpos.pz - o0.pz;
                let idx = (x * 9 + y * 3 + z) as usize;
                let p = pos.pos_in_containing_chunk();
                let b = chunks[idx].get_block_at(p);
                proof {
                    assert(idx as int == region_index(o, pos));
                    assert(b == region_block(o, bl, pos));
                }
                if pass.block_whitelist.contains(&b) {
                    list.push(BlockToPlace::new((pos.px, pos.py, pos.pz), pass.block_type));
                } else if !pass.block_non_blocking.contains(&b) {
                    assert(!position_fits(*pass, o, bl, shifted(pass.block_pos@[n as int], t)));
                    fits = false;
                    break;
                }
            } else {
                assert(!position_fits(*pass, o, bl, shifted(pass.block_pos@[n as int], t)));
                fits = false;
                break;
            }
            n = n + 1;
        }
        if !fits {
            place = false;
        }
        lists.push(list);
        w = w + 1;
    }
    (place, lists)
}

/// The contents of a sequence of lists
pub open spec fn list_views(lists: Seq<Vec<BlockToPlace>>) -> Seq<Seq<BlockToPlace>> {
    Seq::new(lists.len(), |w: int| lists[w]@)
}

/// Append each list of `src` to the list of `dst` of the same index
fn append_lists(dst: &mut Vec<Vec<BlockToPlace>>, src: &mut Vec<Vec<BlockToPlace>>)
    requires
        old(dst)@.len() == old(src)@.len(),
    ensures
        final(dst)@.len() == old(dst)@.len(),
        forall|w: int| 0 <= w < old(dst)@.len() ==> (#[trigger] final(dst)@[w])@ == old(dst)@[w]@ + old(src)@[w]@,
{
    let ghost d0 = dst@;
    let ghost s0 = src@;
    let mut w: usize = 0;
    while w < dst.len()
        invariant
            dst@.len() == d0.len(),
            src@.len() == d0.len(),
            s0.len() == d0.len(),
            w <= d0.len(),
            forall|v: int| 0 <= v < w ==> (#[trigger] dst@[v])@ == d0[v]@ + s0[v]@,
            forall|v: int| w <= v < d0.len() ==> (#[trigger] dst@[v])@ == d0[v]@,
            forall|v: int| w <= v < d0.len() ==> (#[trigger] src@[v])@ == s0[v]@,
        decreases d0.len() - w,
    {
        let mut a = dst.remove(w);
        let mut b = src.remove(w);
        a.append(&mut b);
        dst.insert(w, a);
        src.insert(w, b);
        w = w + 1;
    }
}

/// Place in the middle chunk `center` of the 3x3x3 chunks whose lowest chunk
/// is at `o` the blocks of the lists that fall in it, one list after the other
fn place_blocks(center: &mut Chunk, o: ChunkPos, lists: &Vec<Vec<BlockToPlace>>)
    requires
        old(center).wf(),
        coord_in_range(o.px),
        coord_in_range(o.py),
        coord_in_range(o.pz),
    ensures
        final(center).wf(),
        final(center).pos == old(center).pos,
        final(center).blocks() == apply_all(old(center).blocks(), o, list_views(lists@)),
{
    let ghost b0 = center.blocks();
    let min_x = (o.px + 1) * 32;
    let max_x = (o.px + 2) * 32;
    let min_y = (o.py + 1) * 32;
    let max_y = (o.py + 2) * 32;
    let min_z = (o.pz + 1) * 32;
    let max_z = (o.pz + 2) * 32;
    let mut w: usize = 0;
    while w < lists.len()
        invariant
            w <= lists@.len(),
            center.wf(),
            center.pos == old(center).pos,
            b0 == old(center).blocks(),
            min_x == (o.px + 1) * 32,
            max_x == (o.px + 2) * 32,
            min_y == (o.py + 1) * 32,
            max_y == (o.py + 2) * 32,
            min_z == (o.pz + 1) * 32,
            max_z == (o.pz + 2) * 32,
            center.blocks() == apply_all(b0, o, list_views(lists@).take(w as int)),
        decreases lists@.len() - w,
    {
        let list = &lists[w];
        let ghost before = center.blocks();
        let mut n: usize = 0;
        while n < list.len()
            invariant
                w < lists@.len(),
                *list == lists@[w as int],
                n <= list@.len(),
                center.wf(),
                center.pos == old(center).pos,
                min_x == (o.px + 1) * 32,
                max_x == (o.px + 2) * 32,
                min_y == (o.py + 1) * 32,
                max_y == (o.py + 2) * 32,
                min_z == (o.pz + 1) * 32,
                max_z == (o.pz + 2) * 32,
                center.blocks() == apply_list(before, o, list@.take(n as int)),
            decreases list@.len() - n,
        {
            let b = list[n];
            proof {
                assert(list@.take(n + 1).drop_last() =~= list@.take(n as int));
            }
            if b.pos.px >= min_x && b.pos.px < max_x && b.pos.py >= min_y && b.pos.py < max_y && b.pos.pz >= min_z
                && b.pos.pz < max_z {
                let p = b.pos.pos_in_containing_chunk();
                center.set_block_at(p, b.id);
            }
            n = n + 1;
        }
        proof {
            assert(list@.take(list@.len() as int) =~= list@);
            let vs = list_views(lists@);
            assert(vs.take(w + 1).drop_last() =~= vs.take(w as int));
        }
        w = w + 1;
    }
    proof {
        assert(list_views(lists@).take(lists@.len() as int) =~= list_views(lists@));
    }
}

/// Radius of the layer of a tree at height `jj` above its start
pub open spec fn tree_layer_radius(jj: int) -> int {
    if jj <= 2 {
        0
    } else if jj <= 5 {
        2
    } else {
        1
    }
}

/// The cells of row `ii` of a layer of radius `r` at height `jj`, in order of `kk`
pub open spec fn tree_row(jj: int, ii: int, r: int) -> Seq<BlockPos> {
    Seq::new((2 * r + 1) as nat, |n: int| BlockPos { px: ii as i64, py: jj as i64, pz: (n - r) as i64 })
}

/// The cells of the first `rows` rows of a layer of radius `r` at height `jj`
pub open spec fn tree_rows(jj: int, r: int, rows: int) -> Seq<BlockPos>
    decreases rows,
{
    if rows <= 0 {
        Seq::empty()
    } else {
        tree_rows(jj, r, rows - 1) + tree_row(jj, rows - 1 - r, r)
    }
}

/// The cells of the layers of a tree below height `top`, layer by layer from height 1
pub open spec fn tree_cells(top: int) -> Seq<BlockPos>
    decreases top,
{
    if top <= 1 {
        Seq::empty()
    } else {
        let r = tree_layer_radius(top - 1);
        tree_cells(top - 1) + tree_rows(top - 1, r, 2 * r + 1)
    }
}

/// Whether a cell of a tree is part of its trunk
pub open spec fn is_trunk(p: BlockPos) -> bool {
    p.px == 0 && p.pz == 0 && p.py <= 6
}

/// The cells of `cells` that are (or, with `trunk` false, are not) part of the trunk, in order
pub open spec fn select_cells(cells: Seq<BlockPos>, trunk: bool) -> Seq<BlockPos>
    decreases cells.len(),
{
    if cells.len() == 0 {
        Seq::empty()
    } else {
        let prev = select_cells(cells.drop_last(), trunk);
        if is_trunk(cells.last()) == trunk {
            prev.push(cells.last())
        } else {
            prev
        }
    }
}

/// The positions of the leaves (or, with `trunk`, of the wood) of a tree,
/// relative to the block it grows from
pub open spec fn tree_positions(trunk: bool) -> Seq<BlockPos> {
    select_cells(tree_cells(8), trunk)
}

/// Position of the `i`-th of the 27 chunks around `pos` (x major, then y, then z)
pub open spec fn offset_pos(pos: ChunkPos, i: int) -> ChunkPos {
    ChunkPos { px: (pos.px + i / 9 - 1) as i64, py: (pos.py + i / 3 % 3 - 1) as i64, pz: (pos.pz + i % 3 - 1) as i64 }
}

/// The 27 chunks around `pos`, in generation order
pub open spec fn generation_positions(pos: ChunkPos) -> Seq<ChunkPos> {
    Seq::new(27, |i: int| offset_pos(pos, i))
}

/// Whether `p` is one of the 27 chunks around `pos`
pub open spec fn is_neighbor(pos: ChunkPos, p: ChunkPos) -> bool {
    &&& -1 <= p.px - pos.px <= 1
    &&& -1 <= p.py - pos.py <= 1
    &&& -1 <= p.pz - pos.pz <= 1
}

/// Rank of `p` among the 27 chunks around `pos`
pub open spec fn neighbor_index(pos: ChunkPos, p: ChunkPos) -> int {
    (p.px - pos.px + 1) * 9 + (p.py - pos.py + 1) * 3 + (p.pz - pos.pz + 1)
}

/// The column of a chunk position
pub open spec fn column_of(p: ChunkPos) -> ChunkPosXZ {
    ChunkPosXZ { px: p.px, pz: p.pz }
}

/// The blocks of a new chunk at `p` once the ground of heights `h` is generated in it
pub open spec fn fresh_blocks(b: TopologyBlocks, p: ChunkPos, h: Seq<i32>) -> Seq<BlockId> {
    Seq::new(
        32768,
        |n: int| topology_block(b, n / 32 % 32 + chunk_floor(p.py), h[n / 1024 * 32 + n % 32] as int, 0),
    )
}

/// The blocks of the 27 chunks around `pos` before decoration: the stored
/// chunk where there is one, else a new chunk with its ground
pub open spec fn generation_input(
    pre: Map<ChunkPos, Seq<BlockId>>,
    heights: Map<ChunkPosXZ, Seq<i32>>,
    b: TopologyBlocks,
    pos: ChunkPos,
) -> Seq<Seq<BlockId>> {
    Seq::new(
        27,
        |i: int|
            {
                let p = offset_pos(pos, i);
                if pre.contains_key(p) {
                    pre[p]
                } else {
                    fresh_blocks(b, p, heights[column_of(p)])
                }
            },
    )
}

/// Whether the chunk at `p` is stored, or its ground can be generated from known heights
pub open spec fn ground_ready(pre: Map<ChunkPos, Seq<BlockId>>, heights: Map<ChunkPosXZ, Seq<i32>>, p: ChunkPos) -> bool {
    pre.contains_key(p) || (heights.contains_key(column_of(p)) && heights[column_of(p)].len() == 1024 && topology_fits(
        p.py,
        heights[column_of(p)],
    ))
}

/// Whether the chunk at `pos` can be generated: its neighbors are stored or
/// have known heights, and the coordinates met stay in range
pub open spec fn generation_fits(
    pre: Map<ChunkPos, Seq<BlockId>>,
    heights: Map<ChunkPosXZ, Seq<i32>>,
    d: Decorator,
    pos: ChunkPos,
) -> bool {
    &&& i64::MIN / 64 + 1 <= pos.px <= i64::MAX / 64 - 1
    &&& i64::MIN / 64 + 1 <= pos.py <= i64::MAX / 64 - 1
    &&& i64::MIN / 64 + 1 <= pos.pz <= i64::MAX / 64 - 1
    &&& decoration_fits(d, generation_positions(pos))
    &&& forall|i: int| 0 <= i < 27 ==> #[trigger] ground_ready(pre, heights, offset_pos(pos, i))
}

/// How many times the chunk at `p` will have been used for a decoration after one more use
pub open spec fn next_count(counts: Map<ChunkPos, u32>, p: ChunkPos) -> int {
    if counts.contains_key(p) {
        counts[p] + 1
    } else {
        1
    }
}

/// The stored chunks after generating the chunk at `pos`, once the first
/// `upto` of the 27 chunks around it are handled: each of those is stored
/// again, as it was before decoration, unless it has now been used for 27
/// decorations; the others are not stored
pub open spec fn stored_after(
    pre: Map<ChunkPos, Seq<BlockId>>,
    counts: Map<ChunkPos, u32>,
    pos: ChunkPos,
    input: Seq<Seq<BlockId>>,
    upto: int,
) -> Map<ChunkPos, Seq<BlockId>> {
    Map::new(
        |p: ChunkPos|
            if is_neighbor(pos, p) {
                neighbor_index(pos, p) < upto && next_count(counts, p) < 27
            } else {
                pre.contains_key(p)
            },
        |p: ChunkPos|
            if is_neighbor(pos, p) {
                input[neighbor_index(pos, p)]
            } else {
                pre[p]
            },
    )
}

/// The stored chunks once the first `n` of the 27 chunks around `pos` are taken out
pub open spec fn taken_out(pre: Map<ChunkPos, Seq<BlockId>>, pos: ChunkPos, n: int) -> Map<ChunkPos, Seq<BlockId>> {
    Map::new(|p: ChunkPos| pre.contains_key(p) && !(is_neighbor(pos, p) && neighbor_index(pos, p) < n), |p: ChunkPos| pre[p])
}

/// The use counts after generating the chunk at `pos`
pub open spec fn counts_after(counts: Map<ChunkPos, u32>, pos: ChunkPos, upto: int) -> Map<ChunkPos, u32> {
    Map::new(
        |p: ChunkPos|
            counts.contains_key(p) || (is_neighbor(pos, p) && neighbor_index(pos, p) < upto && next_count(counts, p)
                < 27),
        |p: ChunkPos|
            if is_neighbor(pos, p) && neighbor_index(pos, p) < upto && next_count(counts, p) < 27 {
                next_count(counts, p) as u32
            } else {
                counts[p]
            },
    )
}

/// The counts of a sequence of (position, count) entries, by position
pub open spec fn counts_view(s: Seq<(ChunkPos, u32)>) -> Map<ChunkPos, u32> {
    Map::new(
        |p: ChunkPos| exists|i: int| 0 <= i < s.len() && #[trigger] s[i].0 == p,
        |p: ChunkPos| s[choose|i: int| 0 <= i < s.len() && #[trigger] s[i].0 == p].1,
    )
}

/// Positions of a sequence of (position, count) entries are pairwise distinct
pub open spec fn count_keys_distinct(s: Seq<(ChunkPos, u32)>) -> bool {
    forall|i: int, j: int| 0 <= i < s.len() && 0 <= j < s.len() && i != j ==> #[trigger] s[i].0 != #[trigger] s[j].0
}

/// The 27 chunks around a position, and the rank of each
pub proof fn lemma_offset_index(pos: ChunkPos, i: int)
    requires
        0 <= i < 27,
        i64::MIN + 1 <= pos.px <= i64::MAX - 1,
        i64::MIN + 1 <= pos.py <= i64::MAX - 1,
        i64::MIN + 1 <= pos.pz <= i64::MAX - 1,
    ensures
        is_neighbor(pos, offset_pos(pos, i)),
        neighbor_index(pos, offset_pos(pos, i)) == i,
{
}

/// A neighbor is the chunk of its rank
pub proof fn lemma_neighbor_offset(pos: ChunkPos, p: ChunkPos)
    requires
        is_neighbor(pos, p),
    ensures
        0 <= neighbor_index(pos, p) < 27,
        offset_pos(pos, neighbor_index(pos, p)) == p,
{
}

/// The blocks of a chunk whose ground was generated from heights `h` in a new chunk
proof fn lemma_fresh_blocks(c: Chunk, b: TopologyBlocks, h: Seq<i32>)
    requires
        c.wf(),
        forall|i: u32, j: u32, k: u32|
            i < 32 && j < 32 && k < 32 ==> #[trigger] c.block_at(i, j, k) == topology_block(
                b,
                j + chunk_floor(c.pos.py),
                h[i * 32 + k] as int,
                0,
            ),
    ensures
        c.blocks() == fresh_blocks(b, c.pos, h),
{
    assert forall|n: int| 0 <= n < 32768 implies c.blocks()[n] == fresh_blocks(b, c.pos, h)[n] by {
        let i = (n / 1024) as u32;
        let j = (n / 32 % 32) as u32;
        let k = (n % 32) as u32;
        assert(block_index(i, j, k) == n);
        assert(c.block_at(i, j, k) == c.blocks()[n]);
    }
    assert(c.blocks() =~= fresh_blocks(b, c.pos, h));
}

/// Leaves and wood passes of the tree decorator, with the tree's cells
pub fn tree_passes(leaves_block: u16, wood_block: u16) -> (r: (DecoratorPass, DecoratorPass))
    ensures
        r.0.block_type == leaves_block,
        r.0.block_non_blocking@ == Set::<u16>::empty(),
        r.0.block_whitelist@ == set![0u16, leaves_block],
        r.0.block_pos@ == tree_positions(false),
        r.1.block_type == wood_block,
        r.1.block_non_blocking@ == Set::<u16>::empty(),
        r.1.block_whitelist@ == set![0u16, wood_block, leaves_block],
        r.1.block_pos@ == tree_positions(true),
{
    let mut pass_leaves = DecoratorPass::new(leaves_block);
    let mut pass_wood = DecoratorPass::new(wood_block);
    pass_wood.block_whitelist.insert(leaves_block);
    proof {
        assert(pass_wood.block_whitelist@ =~= set![0u16, wood_block, leaves_block]);
        assert(pass_leaves.block_pos@ =~= select_cells(tree_cells(1), false));
        assert(pass_wood.block_pos@ =~= select_cells(tree_cells(1), true));
    }
    let mut jj: i64 = 1;
    while jj < 8
        invariant
            1 <= jj <= 8,
            pass_leaves.block_type == leaves_block,
            pass_leaves.block_non_blocking@ == Set::<u16>::empty(),
            pass_leaves.block_whitelist@ == set![0u16, leaves_block],
            pass_wood.block_type == wood_block,
            pass_wood.block_non_blocking@ == Set::<u16>::empty(),
            pass_wood.block_whitelist@ == set![0u16, wood_block, leaves_block],
            pass_leaves.block_pos@ == select_cells(tree_cells(jj as int), false),
            pass_wood.block_pos@ == select_cells(tree_cells(jj as int), true),
        decreases 8 - jj,
    {
        let nl: i64 = if jj <= 2 {
            0
        } else if jj > 2 && jj <= 5 {
            2
        } else {
            1
        };
        assert(nl == tree_layer_radius(jj as int));
        let ghost before = tree_cells(jj as int);
        let mut ii: i64 = -nl;
        while ii <= nl
            invariant
                1 <= jj < 8,
                nl == tree_layer_radius(jj as int),
                0 <= nl <= 2,
                -nl <= ii <= nl + 1,
                before == tree_cells(jj as int),
                pass_leaves.block_type == leaves_block,
                pass_leaves.block_non_blocking@ == Set::<u16>::empty(),
                pass_leaves.block_whitelist@ == set![0u16, leaves_block],
                pass_wood.block_type == wood_block,
                pass_wood.block_non_blocking@ == Set::<u16>::empty(),
                pass_wood.block_whitelist@ == set![0u16, wood_block, leaves_block],
                pass_leaves.block_pos@ == select_cells(before + tree_rows(jj as int, nl as int, ii + nl), false),
                pass_wood.block_pos@ == select_cells(before + tree_rows(jj as int, nl as int, ii + nl), true),
            decreases nl + 1 - ii,
        {
            let ghost done = before + tree_rows(jj as int, nl as int, ii + nl);
            let ghost row = tree_row(jj as int, ii as int, nl as int);
            let mut kk: i64 = -nl;
            while kk <= nl
                invariant
                    1 <= jj < 8,
                    0 <= nl <= 2,
                    -nl <= ii <= nl,
                    -nl <= kk <= nl + 1,
                    row == tree_row(jj as int, ii as int, nl as int),
                    pass_leaves.block_type == leaves_block,
                    pass_leaves.block_non_blocking@ == Set::<u16>::empty(),
                    pass_leaves.block_whitelist@ == set![0u16, leaves_block],
                    pass_wood.block_type == wood_block,
                    pass_wood.block_non_blocking@ == Set::<u16>::empty(),
                    pass_wood.block_whitelist@ == set![0u16, wood_block, leaves_block],
                    pass_leaves.block_pos@ == select_cells(done + row.take(kk + nl), false),
                    pass_wood.block_pos@ == select_cells(done + row.take(kk + nl), true),
                decreases nl + 1 - kk,
            {
                let p = BlockPos::from_coords(ii, jj, kk);
                proof {
                    let cur = done + row.take(kk + nl + 1);
                    assert(cur.drop_last() =~= done + row.take(kk + nl));
                    assert(cur.last() == p);
                }
                if ii != 0 || kk != 0 {
                    pass_leaves.block_pos.push(p);
                } else {
                    if jj <= 6 {
                        pass_wood.block_pos.push(p);
                    } else {
                        pass_leaves.block_pos.push(p);
                    }
                }
                kk = kk + 1;
            }
            proof {
                assert(row.take(2 * nl + 1) =~= row);
                assert(done + row =~= before + tree_rows(jj as int, nl as int, ii + nl + 1));
            }
            ii = ii + 1;
        }
        proof {
            assert(before + tree_rows(jj as int, nl as int, 2 * nl + 1) =~= tree_cells(jj + 1));
        }
        jj = jj + 1;
    }
    (pass_leaves, pass_wood)
}

/// Make the `l`-th try of a decorator in chunk `idx`: whether it succeeds,
/// and the blocks of each pass it places
#[verifier::spinoff_prover]
#[verifier::rlimit(40)]
fn try_decorator(chunks: &Vec<Chunk>, decorator: &Decorator, idx: usize, l: i32) -> (r: (bool, Vec<Vec<BlockToPlace>>))
    requires
        chunks@.len() == 27,
        forall|i: int| 0 <= i < 27 ==> (#[trigger] chunks@[i]).wf(),
        decoration_fits(*decorator, chunk_positions(chunks@)),
        idx < 27,
        0 <= l < try_count(*decorator),
    ensures
        r.0 == try_accepted(*decorator, chunk_positions(chunks@), chunk_blocks(chunks@), idx as int, l as int),
        r.0 ==> r.1@.len() == decorator.pass@.len(),
        r.0 ==> forall|w: int|
            0 <= w < decorator.pass@.len() ==> (#[trigger] r.1@[w])@ == try_placements(
                *decorator,
                chunk_positions(chunks@),
                chunk_blocks(chunks@),
                idx as int,
                l as int,
                w,
            ),
{
    let ghost ps = chunk_positions(chunks@);
    let ghost bl = chunk_blocks(chunks@);
    let cpos = chunks[idx].pos;
    proof {
        assert(ps[idx as int] == cpos);
        assert(chunk_pos_in_range(ps[idx as int]));
        assert(draw_fits(ps[idx as int], l as int, 0));
        assert(draw_fits(ps[idx as int], l as int, 1));
        assert(draw_fits(ps[idx as int], l as int, 2));
    }
    let rx = rand_pos_int(cpos.px as i32, cpos.py as i32, cpos.pz as i32, 3 * l) as i64;
    let ry = rand_pos_int(cpos.px as i32, cpos.py as i32, cpos.pz as i32, 3 * l + 1) as i64;
    let rz = rand_pos_int(cpos.px as i32, cpos.py as i32, cpos.pz as i32, 3 * l + 2) as i64;
    let tx = (rx % 32 + 32) % 32;
    let ty = (ry % 32 + 32) % 32;
    let tz = (rz % 32 + 32) % 32;
    proof {
        assert(tx == try_offset(cpos, l as int, 0));
        assert(ty == try_offset(cpos, l as int, 1));
        assert(tz == try_offset(cpos, l as int, 2));
    }
    let start = chunks[idx].get_block_at((tx as u32, ty as u32, tz as u32));
    proof {
        assert(bl[idx as int] == chunks@[idx as int].blocks());
        assert(start == bl[idx as int][block_index(tx as u32, ty as u32, tz as u32)]);
    }
    if decorator.block_start_whitelist.contains(&start) {
        let t = BlockPos::from_coords(tx + cpos.px * 32, ty + cpos.py * 32, tz + cpos.pz * 32);
        assert(t == try_start(cpos, l as int));
        let (place, one) = check_passes(chunks, decorator, t);
        proof {
            assert(chunk_positions(chunks@)[0] == chunks@[0].pos);
        }
        (place, one)
    } else {
        (false, Vec::new())
    }
}

/// The default world generator: ground from height maps, then trees
pub struct DefaultWorldGenerator {
    pregenerated_chunks: Vec<Chunk>,
    pregenerated_chunks_decorator_count: Vec<(ChunkPos, u32)>,
    tree_decorator: Decorator,
    height_map: HeightMap,
}

impl DefaultWorldGenerator {
    /// Decorate the middle chunk of 27 chunks (x major, then y, then z): for
    /// each slab of nine chunks with the same x, try the decorator from random
    /// blocks of those chunks, keep the tries whose passes all fit, then place
    /// their blocks that fall in the middle chunk
    pub fn decorate_chunk(chunks: &mut Vec<Chunk>, decorator: &Decorator)
        requires
            old(chunks)@.len() == 27,
            forall|i: int| 0 <= i < 27 ==> (#[trigger] old(chunks)@[i]).wf(),
            decoration_fits(*decorator, chunk_positions(old(chunks)@)),
        ensures
            final(chunks)@.len() == 27,
            chunk_positions(final(chunks)@) == chunk_positions(old(chunks)@),
            forall|i: int| 0 <= i < 27 ==> (#[trigger] final(chunks)@[i]).wf(),
            forall|i: int| 0 <= i < 27 && i != 13 ==> (#[trigger] final(chunks)@[i]).blocks() == old(chunks)@[i].blocks(),
            final(chunks)@[13].blocks() == decorated_center(
                *decorator,
                chunk_positions(old(chunks)@),
                chunk_blocks(old(chunks)@),
                3,
            ),
    {
        let ghost ps = chunk_positions(chunks@);
        let ghost bl0 = chunk_blocks(chunks@);
        let nt = decorator.number_of_try as i32;
        let np = decorator.pass.len();
        let mut slab: usize = 0;
        while slab < 3
            invariant
                slab <= 3,
                chunks@.len() == 27,
                forall|i: int| 0 <= i < 27 ==> (#[trigger] chunks@[i]).wf(),
                chunk_positions(chunks@) == ps,
                decoration_fits(*decorator, ps),
                bl0.len() == 27,
                forall|i: int| 0 <= i < 27 && i != 13 ==> (#[trigger] chunks@[i]).blocks() == bl0[i],
                chunks@[13].blocks() == decorated_center(*decorator, ps, bl0, slab as int),
                nt == decorator.number_of_try as i32,
                np == decorator.pass@.len(),
            decreases 3 - slab,
        {
            let ghost bl = chunk_blocks(chunks@);
            let ghost prev = decorated_center(*decorator, ps, bl0, slab as int);
            proof {
                assert(bl =~= bl0.update(13, prev));
            }
            let mut lists: Vec<Vec<BlockToPlace>> = Vec::new();
            let mut w: usize = 0;
            while w < np
                invariant
                    w <= np,
                    lists@.len() == w,
                    forall|v: int| 0 <= v < w ==> (#[trigger] lists@[v])@ == Seq::<BlockToPlace>::empty(),
                decreases np - w,
            {
                lists.push(Vec::new());
                w = w + 1;
            }
            let mut jk: usize = 0;
            while jk < 9
                invariant
                    slab < 3,
                    jk <= 9,
                    chunks@.len() == 27,
                    forall|i: int| 0 <= i < 27 ==> (#[trigger] chunks@[i]).wf(),
                    chunk_positions(chunks@) == ps,
                    chunk_blocks(chunks@) == bl,
                    decoration_fits(*decorator, ps),
                    nt == decorator.number_of_try as i32,
                    np == decorator.pass@.len(),
                    lists@.len() == np,
                    forall|v: int|
                        0 <= v < np ==> (#[trigger] lists@[v])@ == slab_placements(
                            *decorator,
                            ps,
                            bl,
                            slab as int,
                            jk as int,
                            0,
                            v,
                        ),
                decreases 9 - jk,
            {
                let idx = slab * 9 + jk;
                let mut l: i32 = 0;
                while l < nt
                    invariant
                        slab < 3,
                        jk < 9,
                        idx == slab * 9 + jk,
                        chunks@.len() == 27,
                        forall|i: int| 0 <= i < 27 ==> (#[trigger] chunks@[i]).wf(),
                        chunk_positions(chunks@) == ps,
                        chunk_blocks(chunks@) == bl,
                        decoration_fits(*decorator, ps),
                        nt == decorator.number_of_try as i32,
                        0 <= l,
                        l <= try_count(*decorator),
                        np == decorator.pass@.len(),
                        lists@.len() == np,
                        forall|v: int|
                            0 <= v < np ==> (#[trigger] lists@[v])@ == slab_placements(
                                *decorator,
                                ps,
                                bl,
                                slab as int,
                                jk as int,
                                l as int,
                                v,
                            ),
                    decreases nt - l,
                {
                    let ghost views_before = list_views(lists@);
                    let (accepted, mut one) = try_decorator(chunks, decorator, idx, l);
                    if accepted {
                        append_lists(&mut lists, &mut one);
                    }
                    proof {
                        assert(accepted == try_accepted(*decorator, ps, bl, idx as int, l as int));
                        assert forall|v: int| 0 <= v < np implies (#[trigger] lists@[v])@ == slab_placements(
                            *decorator,
                            ps,
                            bl,
                            slab as int,
                            jk as int,
                            l + 1,
                            v,
                        ) by {
                            assert(views_before[v] == slab_placements(*decorator, ps, bl, slab as int, jk as int, l as int, v));
                            if !accepted {
                                assert(try_placements(*decorator, ps, bl, idx as int, l as int, v) =~= Seq::<BlockToPlace>::empty());
                                assert(views_before[v] + Seq::<BlockToPlace>::empty() =~= views_before[v]);
                            }
                        }
                    }
                    l = l + 1;
                }
                proof {
                    assert(l == try_count(*decorator));
                }
                jk = jk + 1;
            }
            let o = chunks[0].pos;
            proof {
                assert(ps[0] == o);
                assert(chunk_pos_in_range(ps[0]));
            }
            let ghost before_apply = chunks@;
            let mut center = chunks.remove(13);
            place_blocks(&mut center, o, &lists);
            chunks.insert(13, center);
            proof {
                assert(list_views(lists@) =~= Seq::new(
                    decorator.pass@.len(),
                    |v: int| slab_placements(*decorator, ps, bl, slab as int, 9, 0, v),
                ));
                assert(chunks@ =~= before_apply.update(13, center));
                assert(chunk_positions(chunks@) =~= ps);
            }
            slab = slab + 1;
        }
    }
}

impl DefaultWorldGenerator {
    /// The stored chunks, by position
    pub closed spec fn pregenerated(&self) -> Map<ChunkPos, Seq<BlockId>> {
        chunks_view(self.pregenerated_chunks@)
    }

    /// How many decorations each stored chunk has been used for, by position
    pub closed spec fn counts(&self) -> Map<ChunkPos, u32> {
        counts_view(self.pregenerated_chunks_decorator_count@)
    }

    /// The decorator that grows trees
    pub closed spec fn decorator(&self) -> Decorator {
        self.tree_decorator
    }

    /// The ground heights known, by chunk column
    pub closed spec fn heights(&self) -> Map<ChunkPosXZ, Seq<i32>> {
        self.height_map@
    }

    /// Every stored chunk is the ground, made of `b`, that the known heights of
    /// its column give: so it is when the generator only ever generated with `b`
    pub open spec fn fresh_for(&self, b: TopologyBlocks) -> bool {
        stored_chunks_fresh(self.pregenerated(), self.heights(), b)
    }

    /// Positions are stored once, stored chunks are well formed, and no count
    /// has reached 27
    pub closed spec fn wf(&self) -> bool {
        &&& chunk_positions_distinct(self.pregenerated_chunks@)
        &&& forall|i: int| 0 <= i < self.pregenerated_chunks@.len() ==> (#[trigger] self.pregenerated_chunks@[i]).wf()
        &&& count_keys_distinct(self.pregenerated_chunk_counts())
        &&& forall|i: int|
            0 <= i < self.pregenerated_chunk_counts().len() ==> (#[trigger] self.pregenerated_chunk_counts()[i]).1 < 27
        &&& self.height_map.wf()
    }

    closed spec fn pregenerated_chunk_counts(&self) -> Seq<(ChunkPos, u32)> {
        self.pregenerated_chunks_decorator_count@
    }

    /// Remove the stored chunk at `p`, if there is one
    fn take_pregenerated(&mut self, p: ChunkPos) -> (r: Option<Chunk>)
        requires
            old(self).wf(),
        ensures
            final(self).wf(),
            final(self).pregenerated() == old(self).pregenerated().remove(p),
            final(self).counts() == old(self).counts(),
            final(self).decorator() == old(self).decorator(),
            final(self).heights() == old(self).heights(),
            r is Some <==> old(self).pregenerated().contains_key(p),
            r matches Some(c) ==> c.pos == p && c.wf() && c.blocks() == old(self).pregenerated()[p],
    {
        match find_chunk_index(&self.pregenerated_chunks, p) {
            Some(i) => {
                proof {
                    lemma_chunks_view_at(self.pregenerated_chunks@, i as int);
                    lemma_chunks_view_remove(self.pregenerated_chunks@, i as int);
                }
                let ghost s = self.pregenerated_chunks@;
                let c = self.pregenerated_chunks.remove(i);
                proof {
                    assert forall|k: int| 0 <= k < self.pregenerated_chunks@.len() implies (
                    #[trigger] self.pregenerated_chunks@[k]).wf() by {
                        if k < i {
                            assert(self.pregenerated_chunks@[k] == s[k]);
                        } else {
                            assert(self.pregenerated_chunks@[k] == s[k + 1]);
                        }
                    }
                }
                Some(c)
            },
            None => {
                proof {
                    assert(!chunks_view(self.pregenerated_chunks@).dom().contains(p));
                    assert(self.pregenerated() =~= old(self).pregenerated().remove(p));
                }
                None
            },
        }
    }

    /// Store `c`, at a position not stored yet
    fn store_pregenerated(&mut self, c: Chunk)
        requires
            old(self).wf(),
            c.wf(),
            !old(self).pregenerated().contains_key(c.pos),
        ensures
            final(self).wf(),
            final(self).pregenerated() == old(self).pregenerated().insert(c.pos, c.blocks()),
            final(self).counts() == old(self).counts(),
            final(self).decorator() == old(self).decorator(),
            final(self).heights() == old(self).heights(),
    {
        proof {
            lemma_chunks_view_push(self.pregenerated_chunks@, c);
        }
        self.pregenerated_chunks.push(c);
    }

    /// How many decorations the chunk at `p` has been used for, if it was used
    fn count_of(&self, p: ChunkPos) -> (r: Option<u32>)
        requires
            self.wf(),
        ensures
            r is Some <==> self.counts().contains_key(p),
            r matches Some(k) ==> k == self.counts()[p] && k < 27,
    {
        let mut i: usize = 0;
        while i < self.pregenerated_chunks_decorator_count.len()
            invariant
                self.wf(),
                i <= self.pregenerated_chunk_counts().len(),
                forall|j: int| 0 <= j < i ==> #[trigger] self.pregenerated_chunk_counts()[j].0 != p,
            decreases self.pregenerated_chunk_counts().len() - i,
        {
            let (q, k) = self.pregenerated_chunks_decorator_count[i];
            if q == p {
                proof {
                    let s = self.pregenerated_chunk_counts();
                    assert(s[i as int].0 == p);
                    let c = choose|c: int| 0 <= c < s.len() && #[trigger] s[c].0 == p;
                    assert(c == i);
                }
                return Some(k);
            }
            i = i + 1;
        }
        None
    }

    /// Record that the chunk at `p` has been used for `k` decorations
    fn set_count(&mut self, p: ChunkPos, k: u32)
        requires
            old(self).wf(),
            k < 27,
        ensures
            final(self).wf(),
            final(self).counts() == old(self).counts().insert(p, k),
            final(self).pregenerated() == old(self).pregenerated(),
            final(self).decorator() == old(self).decorator(),
            final(self).heights() == old(self).heights(),
    {
        let ghost s = self.pregenerated_chunk_counts();
        let mut i: usize = 0;
        while i < self.pregenerated_chunks_decorator_count.len()
            invariant
                self.wf(),
                s == self.pregenerated_chunk_counts(),
                self == old(self),
                k < 27,
                i <= s.len(),
                forall|j: int| 0 <= j < i ==> #[trigger] s[j].0 != p,
            decreases s.len() - i,
        {
            if self.pregenerated_chunks_decorator_count[i].0 == p {
                self.pregenerated_chunks_decorator_count.set(i, (p, k));
                proof {
                    let t = self.pregenerated_chunk_counts();
                    assert(t == s.update(i as int, (p, k)));
                    assert forall|q: ChunkPos| #[trigger] counts_view(t).dom().contains(q) <==> counts_view(s).insert(p, k).dom().contains(q) by {
                        if exists|c: int| 0 <= c < t.len() && #[trigger] t[c].0 == q {
                            let c = choose|c: int| 0 <= c < t.len() && #[trigger] t[c].0 == q;
                            if c != i {
                                assert(s[c].0 == q);
                            }
                        }
                        if exists|c: int| 0 <= c < s.len() && #[trigger] s[c].0 == q {
                            let c = choose|c: int| 0 <= c < s.len() && #[trigger] s[c].0 == q;
                            assert(t[c].0 == q);
                        }
                        if q == p {
                            assert(t[i as int].0 == q);
                        }
                    }
                    assert forall|q: ChunkPos| #[trigger] counts_view(t).dom().contains(q) implies counts_view(t)[q]
                        == counts_view(s).insert(p, k)[q] by {
                        let c = choose|c: int| 0 <= c < t.len() && #[trigger] t[c].0 == q;
                        if q == p {
                            assert(t[i as int].0 == q);
                            assert(c == i);
                        } else {
                            assert(s[c].0 == q);
                            let c0 = choose|c0: int| 0 <= c0 < s.len() && #[trigger] s[c0].0 == q;
                            assert(c0 == c);
                        }
                    }
                    assert(counts_view(t) =~= counts_view(s).insert(p, k));
                }
                return;
            }
            i = i + 1;
        }
        self.pregenerated_chunks_decorator_count.push((p, k));
        proof {
            let t = self.pregenerated_chunk_counts();
            assert(t == s.push((p, k)));
            assert forall|a: int, b: int| 0 <= a < t.len() && 0 <= b < t.len() && a != b implies #[trigger] t[a].0
                != #[trigger] t[b].0 by {
                if a == s.len() {
                    assert(s[b].0 == t[b].0);
                } else if b == s.len() {
                    assert(s[a].0 == t[a].0);
                }
            }
            assert forall|q: ChunkPos| #[trigger] counts_view(t).dom().contains(q) <==> counts_view(s).insert(p, k).dom().contains(q) by {
                if exists|c: int| 0 <= c < t.len() && #[trigger] t[c].0 == q {
                    let c = choose|c: int| 0 <= c < t.len() && #[trigger] t[c].0 == q;
                    if c < s.len() {
                        assert(s[c].0 == q);
                    }
                }
                if exists|c: int| 0 <= c < s.len() && #[trigger] s[c].0 == q {
                    let c = choose|c: int| 0 <= c < s.len() && #[trigger] s[c].0 == q;
                    assert(t[c].0 == q);
                }
                if q == p {
                    assert(t[s.len() as int].0 == q);
                }
            }
            assert forall|q: ChunkPos| #[trigger] counts_view(t).dom().contains(q) implies counts_view(t)[q]
                == counts_view(s).insert(p, k)[q] by {
                let c = choose|c: int| 0 <= c < t.len() && #[trigger] t[c].0 == q;
                if q == p {
                    assert(t[s.len() as int].0 == q);
                    assert(c == s.len());
                } else {
                    assert(s[c].0 == q);
                    let c0 = choose|c0: int| 0 <= c0 < s.len() && #[trigger] s[c0].0 == q;
                    assert(c0 == c);
                }
            }
            assert(counts_view(t) =~= counts_view(s).insert(p, k));
        }
    }

    /// Generate the ground of the new chunk `chunk` from the heights of its column
    fn pregenerate_chunk(chunk: &mut Chunk, blocks: &TopologyBlocks, height_map: &HeightMap)
        requires
            old(chunk).wf(),
            forall|i: int| 0 <= i < chunk_volume() ==> #[trigger] old(chunk).blocks()[i] == 0,
            height_map.wf(),
            height_map@.contains_key(column_of(old(chunk).pos)),
            height_map@[column_of(old(chunk).pos)].len() == 1024,
            topology_fits(old(chunk).pos.py, height_map@[column_of(old(chunk).pos)]),
        ensures
            final(chunk).wf(),
            final(chunk).pos == old(chunk).pos,
            final(chunk).blocks() == fresh_blocks(*blocks, old(chunk).pos, height_map@[column_of(old(chunk).pos)]),
    {
        let column = ChunkPosXZ::from_chunk_pos(chunk.pos);
        assert(column == column_of(chunk.pos));
        let h = height_map.get_chunk_height_map(column).unwrap();
        let ghost c0 = *chunk;
        generate_chunk_topology(chunk, blocks, h);
        proof {
            assert forall|i: u32, j: u32, k: u32| i < 32 && j < 32 && k < 32 implies #[trigger] c0.block_at(i, j, k) == 0 by {
                assert(0 <= block_index(i, j, k) < chunk_volume());
            }
            lemma_fresh_blocks(*chunk, *blocks, h@);
        }
    }
}

impl DefaultWorldGenerator {
    /// A generator with nothing stored yet and a tree decorator that grows
    /// trees of `wood_block` and `leaves_block` on `grass_block`, 32 tries per chunk
    pub fn new(grass_block: u16, leaves_block: u16, wood_block: u16) -> (g: DefaultWorldGenerator)
        ensures
            g.wf(),
            g.pregenerated() == Map::<ChunkPos, Seq<BlockId>>::empty(),
            g.counts() == Map::<ChunkPos, u32>::empty(),
            g.heights() == Map::<ChunkPosXZ, Seq<i32>>::empty(),
            forall|b: TopologyBlocks| #[trigger] g.fresh_for(b),
            g.decorator().number_of_try == 32,
            g.decorator().block_start_whitelist@ == set![grass_block],
            g.decorator().pass@.len() == 2,
            g.decorator().pass@[0].block_type == leaves_block,
            g.decorator().pass@[0].block_non_blocking@ == Set::<u16>::empty(),
            g.decorator().pass@[0].block_whitelist@ == set![0u16, leaves_block],
            g.decorator().pass@[0].block_pos@ == tree_positions(false),
            g.decorator().pass@[1].block_type == wood_block,
            g.decorator().pass@[1].block_non_blocking@ == Set::<u16>::empty(),
            g.decorator().pass@[1].block_whitelist@ == set![0u16, wood_block, leaves_block],
            g.decorator().pass@[1].block_pos@ == tree_positions(true),
    {
        let (pass_leaves, pass_wood) = tree_passes(leaves_block, wood_block);
        let mut block_start_whitelist = HashSet::new();
        block_start_whitelist.insert(grass_block);
        assert(block_start_whitelist@ =~= set![grass_block]);
        let mut pass = Vec::new();
        pass.push(pass_leaves);
        pass.push(pass_wood);
        let tree_decorator = Decorator { number_of_try: 32, block_start_whitelist, pass };
        let g = DefaultWorldGenerator {
            tree_decorator,
            pregenerated_chunks_decorator_count: Vec::new(),
            pregenerated_chunks: Vec::new(),
            height_map: HeightMap::new(),
        };
        proof {
            assert(g.pregenerated() =~= Map::<ChunkPos, Seq<BlockId>>::empty());
            assert(g.counts() =~= Map::<ChunkPos, u32>::empty());
        }
        g
    }

    /// Whether the heights of column `pos` are known
    pub fn has_height_map(&self, pos: ChunkPosXZ) -> (b: bool)
        requires
            self.wf(),
        ensures
            b == self.heights().contains_key(pos),
    {
        self.height_map.get_chunk_height_map(pos).is_some()
    }

    /// Record the ground heights of column `pos`, unless they are known already
    pub fn insert_height_map(&mut self, pos: ChunkPosXZ, heights: Vec<i32>)
        requires
            old(self).wf(),
        ensures
            final(self).wf(),
            old(self).heights().contains_key(pos) ==> final(self).heights() == old(self).heights(),
            !old(self).heights().contains_key(pos) ==> final(self).heights() == old(self).heights().insert(pos, heights@),
            forall|b: TopologyBlocks| #[trigger] old(self).fresh_for(b) ==> final(self).fresh_for(b),
            final(self).pregenerated() == old(self).pregenerated(),
            final(self).counts() == old(self).counts(),
            final(self).decorator() == old(self).decorator(),
    {
        self.height_map.insert_chunk_height_map(pos, heights);
        proof {
            assert forall|b: TopologyBlocks| #[trigger] old(self).fresh_for(b) implies self.fresh_for(b) by {
                if !old(self).heights().contains_key(pos) {
                    law_new_heights_keep_stored_fresh(old(self).pregenerated(), old(self).heights(), b, pos, self.heights()[pos]);
                }
            }
        }
    }

    /// Whether the chunk at `p` is stored
    pub fn is_pregenerated(&self, p: ChunkPos) -> (b: bool)
        ensures
            b == self.pregenerated().contains_key(p),
    {
        find_chunk_index(&self.pregenerated_chunks, p).is_some()
    }
}

/// A copy of a chunk
fn copy_chunk(c: &Chunk) -> (r: Chunk)
    ensures
        r.pos == c.pos,
        r.blocks() == c.blocks(),
{
    let data = c.data.clone();
    proof {
        assert forall|i: int| 0 <= i < c.data@.len() implies data@[i] == c.data@[i] by {
            assert(cloned(c.data@[i], data@[i]));
        }
        assert(data@ =~= c.data@);
    }
    Chunk { pos: c.pos, data }
}

impl WorldGenerator for DefaultWorldGenerator {
    open spec fn generator_wf(&self) -> bool {
        self.wf()
    }

    open spec fn can_generate_at(&self, pos: ChunkPos, blocks: TopologyBlocks) -> bool {
        generation_fits(self.pregenerated(), self.heights(), self.decorator(), pos)
    }

    /// Generate the chunk at `pos`: take the 27 chunks around it from the
    /// stored ones, or make them with their ground; decorate the middle one,
    /// which is the result; store the 27 again, as they were before
    /// decoration, unless they have now been used for 27 decorations
    fn generate_chunk(&mut self, pos: ChunkPos, blocks: &TopologyBlocks) -> (r: Chunk)
        ensures
            final(self).wf(),
            final(self).decorator() == old(self).decorator(),
            final(self).heights() == old(self).heights(),
            r.wf(),
            r.pos == pos,
            r.blocks() == decorated_center(
                old(self).decorator(),
                generation_positions(pos),
                generation_input(old(self).pregenerated(), old(self).heights(), *blocks, pos),
                3,
            ),
            final(self).pregenerated() == stored_after(
                old(self).pregenerated(),
                old(self).counts(),
                pos,
                generation_input(old(self).pregenerated(), old(self).heights(), *blocks, pos),
                27,
            ),
            final(self).counts() == counts_after(old(self).counts(), pos, 27),
            old(self).fresh_for(*blocks) ==> final(self).fresh_for(*blocks),
    {
        let ghost pre0 = self.pregenerated();
        let ghost counts0 = self.counts();
        let ghost heights0 = self.heights();
        let ghost d = self.decorator();
        let ghost input = generation_input(pre0, heights0, *blocks, pos);
        let mut chunks_vec: Vec<Chunk> = Vec::new();
        proof {
            assert(taken_out(pre0, pos, 0) =~= pre0);
        }
        let mut m: usize = 0;
        while m < 27
            invariant
                m <= 27,
                self.wf(),
                self.decorator() == d,
                self.heights() == heights0,
                self.counts() == counts0,
                generation_fits(pre0, heights0, d, pos),
                input == generation_input(pre0, heights0, *blocks, pos),
                self.pregenerated() == taken_out(pre0, pos, m as int),
                chunks_vec@.len() == m,
                forall|n: int| 0 <= n < m ==> (#[trigger] chunks_vec@[n]).pos == offset_pos(pos, n),
                forall|n: int| 0 <= n < m ==> (#[trigger] chunks_vec@[n]).wf(),
                forall|n: int| 0 <= n < m ==> (#[trigger] chunks_vec@[n]).blocks() == input[n],
            decreases 27 - m,
        {
            let dx = (m / 9) as i64 - 1;
            let dy = ((m / 3) % 3) as i64 - 1;
            let dz = (m % 3) as i64 - 1;
            let p = pos.offset(dx, dy, dz);
            proof {
                assert(p == offset_pos(pos, m as int));
                lemma_offset_index(pos, m as int);
                assert(ground_ready(pre0, heights0, offset_pos(pos, m as int)));
                assert(self.pregenerated().contains_key(p) == pre0.contains_key(p));
            }
            let c = match self.take_pregenerated(p) {
                Some(c) => c,
                None => {
                    let mut c = Chunk::new(p);
                    Self::pregenerate_chunk(&mut c, blocks, &self.height_map);
                    c
                },
            };
            chunks_vec.push(c);
            proof {
                assert forall|q: ChunkPos| #[trigger] self.pregenerated().contains_key(q) <==> taken_out(pre0, pos, m + 1).contains_key(q) by {
                    if is_neighbor(pos, q) {
                        lemma_neighbor_offset(pos, q);
                    }
                }
                assert(self.pregenerated() =~= taken_out(pre0, pos, m + 1));
            }
            m = m + 1;
        }
        proof {
            assert(chunk_positions(chunks_vec@) =~= generation_positions(pos));
            assert(chunk_blocks(chunks_vec@) =~= input);
        }
        let chunk_center = copy_chunk(&chunks_vec[13]);
        let ghost pre_dec = chunks_vec@;
        Self::decorate_chunk(&mut chunks_vec, &self.tree_decorator);
        let ghost dec = chunks_vec@;
        proof {
            assert(chunk_positions(dec)[13] == dec[13].pos);
            assert(generation_positions(pos)[13] == offset_pos(pos, 13));
        }
        let chunk_res = chunks_vec.remove(13);
        chunks_vec.insert(13, chunk_center);
        let ghost all = chunks_vec@;
        proof {
            assert(all =~= dec.update(13, chunk_center));
            assert forall|n: int| 0 <= n < 27 implies (#[trigger] all[n]).pos == offset_pos(pos, n) && all[n].blocks() == input[n] by {
                assert(chunk_positions(dec)[n] == dec[n].pos);
                assert(generation_positions(pos)[n] == offset_pos(pos, n));
                assert(chunk_positions(pre_dec)[n] == pre_dec[n].pos);
                if n != 13 {
                    assert(all[n] == dec[n]);
                    assert(dec[n].blocks() == pre_dec[n].blocks());
                }
            }
            assert(stored_after(pre0, counts0, pos, input, 0) =~= taken_out(pre0, pos, 27));
            assert(counts_after(counts0, pos, 0) =~= counts0);
        }
        let mut m: usize = 0;
        while m < 27
            invariant
                m <= 27,
                self.wf(),
                self.decorator() == d,
                self.heights() == heights0,
                generation_fits(pre0, heights0, d, pos),
                all.len() == 27,
                forall|n: int| 0 <= n < 27 ==> (#[trigger] all[n]).pos == offset_pos(pos, n) && all[n].blocks() == input[n],
                forall|n: int| 0 <= n < 27 ==> (#[trigger] all[n]).wf(),
                chunks_vec@ == all.skip(m as int),
                self.pregenerated() == stored_after(pre0, counts0, pos, input, m as int),
                self.counts() == counts_after(counts0, pos, m as int),
            decreases 27 - m,
        {
            let chunk = chunks_vec.remove(0);
            proof {
                assert(chunk == all[m as int]);
                assert(chunks_vec@ =~= all.skip(m + 1));
                lemma_offset_index(pos, m as int);
            }
            let cpos = chunk.pos;
            let k: u32 = match self.count_of(cpos) {
                None => 1,
                Some(i) => i + 1,
            };
            assert(k == next_count(counts0, cpos));
            if k < 27 {
                self.store_pregenerated(chunk);
                self.set_count(cpos, k);
            }
            proof {
                assert forall|q: ChunkPos| #[trigger] self.pregenerated().contains_key(q) <==> stored_after(pre0, counts0, pos, input, m + 1).contains_key(q) by {
                    if is_neighbor(pos, q) {
                        lemma_neighbor_offset(pos, q);
                    }
                }
                assert forall|q: ChunkPos| #[trigger] self.pregenerated().contains_key(q) implies self.pregenerated()[q]
                    == stored_after(pre0, counts0, pos, input, m + 1)[q] by {
                    if is_neighbor(pos, q) {
                        lemma_neighbor_offset(pos, q);
                    }
                }
                assert(self.pregenerated() =~= stored_after(pre0, counts0, pos, input, m + 1));
                assert forall|q: ChunkPos| #[trigger] self.counts().contains_key(q) <==> counts_after(counts0, pos, m + 1).contains_key(q) by {
                    if is_neighbor(pos, q) {
                        lemma_neighbor_offset(pos, q);
                    }
                }
                assert forall|q: ChunkPos| #[trigger] self.counts().contains_key(q) implies self.counts()[q]
                    == counts_after(counts0, pos, m + 1)[q] by {
                    if is_neighbor(pos, q) {
                        lemma_neighbor_offset(pos, q);
                    }
                }
                assert(self.counts() =~= counts_after(counts0, pos, m + 1));
            }
            m = m + 1;
        }
        proof {
            if stored_chunks_fresh(pre0, heights0, *blocks) {
                law_generation_keeps_stored_fresh(pre0, counts0, heights0, *blocks, pos);
            }
        }
        chunk_res
    }
}

impl DefaultWorldGenerator {
    /// Whether the chunk at `pos` can be generated now: the chunks around it
    /// are stored or have known heights, and the coordinates met stay in range
    pub fn can_generate(&self, pos: ChunkPos) -> (b: bool)
        requires
            self.wf(),
        ensures
            b == generation_fits(self.pregenerated(), self.heights(), self.decorator(), pos),
    {
        let lo: i64 = i64::MIN / 64 + 1;
        let hi: i64 = i64::MAX / 64 - 1;
        if pos.px < lo || pos.px > hi || pos.py < lo || pos.py > hi || pos.pz < lo || pos.pz > hi {
            return false;
        }
        let ghost ps = generation_positions(pos);
        let decorator = &self.tree_decorator;
        proof {
            assert forall|i: int| 0 <= i < 27 implies #[trigger] chunk_pos_in_range(ps[i]) by {
                lemma_offset_index(pos, i);
            }
        }
        // the coordinates of the passes
        let mut w: usize = 0;
        while w < decorator.pass.len()
            invariant
                w <= decorator.pass@.len(),
                *decorator == self.decorator(),
                forall|v: int, n: int|
                    0 <= v < w && 0 <= n < decorator.pass@[v].block_pos@.len() ==> #[trigger] block_pos_in_range(
                        decorator.pass@[v].block_pos@[n],
                    ),
            decreases decorator.pass@.len() - w,
        {
            let bp = &decorator.pass[w].block_pos;
            let mut n: usize = 0;
            while n < bp.len()
                invariant
                    w < decorator.pass@.len(),
                    *bp == decorator.pass@[w as int].block_pos,
                    n <= bp@.len(),
                    *decorator == self.decorator(),
                    forall|v: int, n2: int|
                        0 <= v < w && 0 <= n2 < decorator.pass@[v].block_pos@.len() ==> #[trigger] block_pos_in_range(
                            decorator.pass@[v].block_pos@[n2],
                        ),
                    forall|n2: int| 0 <= n2 < n ==> #[trigger] block_pos_in_range(bp@[n2]),
                decreases bp@.len() - n,
            {
                let q = bp[n];
                if q.px < i64::MIN / 64 || q.px > i64::MAX / 64 || q.py < i64::MIN / 64 || q.py > i64::MAX / 64 || q.pz
                    < i64::MIN / 64 || q.pz > i64::MAX / 64 {
                    proof {
                        assert(!block_pos_in_range(decorator.pass@[w as int].block_pos@[n as int]));
                        assert(!decoration_fits(*decorator, ps));
                    }
                    return false;
                }
                n = n + 1;
            }
            proof {
                assert forall|n2: int| 0 <= n2 < decorator.pass@[w as int].block_pos@.len() implies #[trigger] block_pos_in_range(
                    decorator.pass@[w as int].block_pos@[n2],
                ) by {
                    assert(block_pos_in_range(bp@[n2]));
                }
            }
            w = w + 1;
        }
        let nt = decorator.number_of_try as i32;
        if nt > 715827882 {
            assert(!decoration_fits(*decorator, ps));
            return false;
        }
        // the pseudo-random draws
        let mut i: usize = 0;
        while i < 27
            invariant
                i <= 27,
                *decorator == self.decorator(),
                nt == decorator.number_of_try as i32,
                nt <= 715827882,
                ps == generation_positions(pos),
                i64::MIN / 64 + 1 <= pos.px <= i64::MAX / 64 - 1,
                i64::MIN / 64 + 1 <= pos.py <= i64::MAX / 64 - 1,
                i64::MIN / 64 + 1 <= pos.pz <= i64::MAX / 64 - 1,
                forall|i2: int, l: int, axis: int|
                    0 <= i2 < i && 0 <= l < try_count(*decorator) && 0 <= axis < 3 ==> #[trigger] draw_fits(ps[i2], l, axis),
            decreases 27 - i,
        {
            let p = pos.offset((i / 9) as i64 - 1, ((i / 3) % 3) as i64 - 1, (i % 3) as i64 - 1);
            assert(p == ps[i as int]);
            let mut l: i32 = 0;
            while l < nt
                invariant
                    i < 27,
                    p == ps[i as int],
                    ps == generation_positions(pos),
                    *decorator == self.decorator(),
                    nt == decorator.number_of_try as i32,
                    nt <= 715827882,
                    0 <= l,
                    l <= try_count(*decorator),
                    forall|i2: int, l2: int, axis: int|
                        0 <= i2 < i && 0 <= l2 < try_count(*decorator) && 0 <= axis < 3 ==> #[trigger] draw_fits(ps[i2], l2, axis),
                    forall|l2: int, axis: int| 0 <= l2 < l && 0 <= axis < 3 ==> #[trigger] draw_fits(ps[i as int], l2, axis),
                decreases nt - l,
            {
                let mut axis: i32 = 0;
                while axis < 3
                    invariant
                        i < 27,
                        p == ps[i as int],
                        ps == generation_positions(pos),
                        *decorator == self.decorator(),
                        nt == decorator.number_of_try as i32,
                        0 <= l < nt,
                        nt <= 715827882,
                        0 <= axis <= 3,
                        forall|a2: int| 0 <= a2 < axis ==> #[trigger] draw_fits(ps[i as int], l as int, a2),
                    decreases 3 - axis,
                {
                    if !rand_pos_fits_check(p.px as i32, p.py as i32, p.pz as i32, 3 * l + axis) {
                        proof {
                            assert(!draw_fits(ps[i as int], l as int, axis as int));
                            assert(!decoration_fits(*decorator, ps));
                        }
                        return false;
                    }
                    axis = axis + 1;
                }
                l = l + 1;
            }
            i = i + 1;
        }
        assert(decoration_fits(*decorator, ps));
        // the grounds
        let mut i: usize = 0;
        while i < 27
            invariant
                i <= 27,
                self.wf(),
                i64::MIN / 64 + 1 <= pos.px <= i64::MAX / 64 - 1,
                i64::MIN / 64 + 1 <= pos.py <= i64::MAX / 64 - 1,
                i64::MIN / 64 + 1 <= pos.pz <= i64::MAX / 64 - 1,
                forall|i2: int| 0 <= i2 < i ==> #[trigger] ground_ready(self.pregenerated(), self.heights(), offset_pos(pos, i2)),
            decreases 27 - i,
        {
            let p = pos.offset((i / 9) as i64 - 1, ((i / 3) % 3) as i64 - 1, (i % 3) as i64 - 1);
            assert(p == offset_pos(pos, i as int));
            if !self.is_pregenerated(p) {
                let column = ChunkPosXZ::from_chunk_pos(p);
                assert(column == column_of(p));
                match self.height_map.get_chunk_height_map(column) {
                    None => {
                        assert(!ground_ready(self.pregenerated(), self.heights(), offset_pos(pos, i as int)));
                        return false;
                    },
                    Some(h) => {
                        if h.len() != 1024 || !topology_fits_check(p.py, h) {
                            assert(!ground_ready(self.pregenerated(), self.heights(), offset_pos(pos, i as int)));
                            return false;
                        }
                    },
                }
            }
            i = i + 1;
        }
        true
    }
}

/// A world generator for debugging: stone in every block above height 0
pub struct DebugWorldGenerator;

/// The block at height `y` in the world of the debug generator
pub open spec fn debug_block(stone: u16, y: int) -> u16 {
    if y > 0 {
        stone
    } else {
        0
    }
}

impl WorldGenerator for DebugWorldGenerator {
    open spec fn generator_wf(&self) -> bool {
        true
    }

    open spec fn can_generate_at(&self, pos: ChunkPos, blocks: TopologyBlocks) -> bool {
        i64::MIN / 32 <= pos.py <= i64::MAX / 32 - 1
    }

    /// The chunk at `pos`: stone in the blocks above height 0, air elsewhere
    fn generate_chunk(&mut self, pos: ChunkPos, blocks: &TopologyBlocks) -> (c: Chunk)
        ensures
            c.wf(),
            c.pos == pos,
            forall|i: u32, j: u32, k: u32|
                i < 32 && j < 32 && k < 32 ==> #[trigger] c.block_at(i, j, k) == debug_block(blocks.stone, j + 32 * pos.py),
    {
        let stone = blocks.stone;
        let mut c = Chunk::new(pos);
        let mut i: u32 = 0;
        while i < 32
            invariant
                i <= 32,
                c.wf(),
                c.pos == pos,
                i64::MIN / 32 <= pos.py <= i64::MAX / 32 - 1,
                forall|a: u32, b: u32, e: u32|
                    a < 32 && b < 32 && e < 32 ==> #[trigger] c.block_at(a, b, e) == (if a < i {
                        debug_block(stone, b + 32 * pos.py)
                    } else {
                        0
                    }),
            decreases 32 - i,
        {
            let mut j: u32 = 0;
            while j < 32
                invariant
                    i < 32,
                    j <= 32,
                    c.wf(),
                    c.pos == pos,
                    i64::MIN / 32 <= pos.py <= i64::MAX / 32 - 1,
                    forall|a: u32, b: u32, e: u32|
                        a < 32 && b < 32 && e < 32 ==> #[trigger] c.block_at(a, b, e) == (if a < i || (a == i && b < j) {
                            debug_block(stone, b + 32 * pos.py)
                        } else {
                            0
                        }),
                decreases 32 - j,
            {
                if j as i64 + 32 * pos.py > 0 {
                    let mut k: u32 = 0;
                    while k < 32
                        invariant
                            i < 32,
                            j < 32,
                            k <= 32,
                            c.wf(),
                            c.pos == pos,
                            j + 32 * pos.py > 0,
                            forall|a: u32, b: u32, e: u32|
                                a < 32 && b < 32 && e < 32 ==> #[trigger] c.block_at(a, b, e) == (if a < i || (a == i
                                    && b < j) || (a == i && b == j && e < k) {
                                    debug_block(stone, b + 32 * pos.py)
                                } else {
                                    0
                                }),
                        decreases 32 - k,
                    {
                        let ghost before = c;
                        c.set_block_at((i, j, k), stone);
                        proof {
                            assert forall|a: u32, b: u32, e: u32| a < 32 && b < 32 && e < 32 implies #[trigger] c.block_at(
                                a,
                                b,
                                e,
                            ) == (if a < i || (a == i && b < j) || (a == i && b == j && e < k + 1) {
                                debug_block(stone, b + 32 * pos.py)
                            } else {
                                0
                            }) by {
                                assert(before.block_at(a, b, e) == before.block_at(a, b, e));
                                assert(0 <= block_index(a, b, e) < 32768);
                                if a != i || b != j || e != k {
                                    assert(block_index(a, b, e) != block_index(i, j, k));
                                    assert(c.block_at(a, b, e) == before.block_at(a, b, e));
                                } else {
                                    assert(c.block_at(a, b, e) == stone);
                                }
                            }
                        }
                        k = k + 1;
                    }
                }
                j = j + 1;
            }
            i = i + 1;
        }
        c
    }
}

/// Every stored chunk is the ground, made of `b`, that the known heights of its column give
pub open spec fn stored_chunks_fresh(pre: Map<ChunkPos, Seq<BlockId>>, heights: Map<ChunkPosXZ, Seq<i32>>, b: TopologyBlocks) -> bool {
    forall|p: ChunkPos|
        #[trigger] pre.contains_key(p) ==> heights.contains_key(column_of(p)) && pre[p] == fresh_blocks(
            b,
            p,
            heights[column_of(p)],
        )
}

/// The 27 chunks around `pos` made from the known heights alone
pub open spec fn fresh_input(heights: Map<ChunkPosXZ, Seq<i32>>, b: TopologyBlocks, pos: ChunkPos) -> Seq<Seq<BlockId>> {
    Seq::new(27, |i: int| fresh_blocks(b, offset_pos(pos, i), heights[column_of(offset_pos(pos, i))]))
}

/// While the stored chunks are the ground that the known heights give, the
/// chunks that a generation starts from are that ground, whichever are stored
pub proof fn law_generation_input_is_fresh(
    pre: Map<ChunkPos, Seq<BlockId>>,
    heights: Map<ChunkPosXZ, Seq<i32>>,
    b: TopologyBlocks,
    pos: ChunkPos,
)
    requires
        stored_chunks_fresh(pre, heights, b),
    ensures
        generation_input(pre, heights, b, pos) == fresh_input(heights, b, pos),
{
    assert(generation_input(pre, heights, b, pos) =~= fresh_input(heights, b, pos));
}

/// A generated chunk does not depend on the earlier generations: two
/// generators whose stored chunks are the ground of the same heights
/// generate the same chunk at `pos`
pub proof fn law_generation_independent_of_history(
    pre1: Map<ChunkPos, Seq<BlockId>>,
    pre2: Map<ChunkPos, Seq<BlockId>>,
    heights: Map<ChunkPosXZ, Seq<i32>>,
    b: TopologyBlocks,
    d: Decorator,
    pos: ChunkPos,
)
    requires
        stored_chunks_fresh(pre1, heights, b),
        stored_chunks_fresh(pre2, heights, b),
    ensures
        decorated_center(d, generation_positions(pos), generation_input(pre1, heights, b, pos), 3) == decorated_center(
            d,
            generation_positions(pos),
            generation_input(pre2, heights, b, pos),
            3,
        ),
{
    law_generation_input_is_fresh(pre1, heights, b, pos);
    law_generation_input_is_fresh(pre2, heights, b, pos);
}

/// Generating a chunk keeps the stored chunks the ground that the known heights give
pub proof fn law_generation_keeps_stored_fresh(
    pre: Map<ChunkPos, Seq<BlockId>>,
    counts: Map<ChunkPos, u32>,
    heights: Map<ChunkPosXZ, Seq<i32>>,
    b: TopologyBlocks,
    pos: ChunkPos,
)
    requires
        stored_chunks_fresh(pre, heights, b),
        forall|i: int| 0 <= i < 27 ==> #[trigger] ground_ready(pre, heights, offset_pos(pos, i)),
    ensures
        stored_chunks_fresh(stored_after(pre, counts, pos, generation_input(pre, heights, b, pos), 27), heights, b),
{
    let after = stored_after(pre, counts, pos, generation_input(pre, heights, b, pos), 27);
    assert forall|p: ChunkPos| #[trigger] after.contains_key(p) implies heights.contains_key(column_of(p)) && after[p]
        == fresh_blocks(b, p, heights[column_of(p)]) by {
        if is_neighbor(pos, p) {
            lemma_neighbor_offset(pos, p);
            assert(ground_ready(pre, heights, offset_pos(pos, neighbor_index(pos, p))));
        }
    }
}

/// Recording the heights of a column not known yet keeps the stored chunks
/// the ground that the known heights give
pub proof fn law_new_heights_keep_stored_fresh(
    pre: Map<ChunkPos, Seq<BlockId>>,
    heights: Map<ChunkPosXZ, Seq<i32>>,
    b: TopologyBlocks,
    column: ChunkPosXZ,
    h: Seq<i32>,
)
    requires
        stored_chunks_fresh(pre, heights, b),
        !heights.contains_key(column),
    ensures
        stored_chunks_fresh(pre, heights.insert(column, h), b),
{
}

} // verus!

verus! {

/// A generated chunk depends on its position, the ground heights and the
/// blocks alone: two generators that only ever generated with the blocks `b`
/// (a new generator is fresh for every `b`, and generating and recording
/// heights keep it so), with the same heights and decorator, generate the same
/// chunk at `pos`, whatever each generated before
pub proof fn law_generators_agree(g1: DefaultWorldGenerator, g2: DefaultWorldGenerator, b: TopologyBlocks, pos: ChunkPos)
    requires
        g1.fresh_for(b),
        g2.fresh_for(b),
        g1.heights() == g2.heights(),
        g1.decorator() == g2.decorator(),
    ensures
        decorated_center(g1.decorator(), generation_positions(pos), generation_input(g1.pregenerated(), g1.heights(), b, pos), 3)
            == decorated_center(
            g2.decorator(),
            generation_positions(pos),
            generation_input(g2.pregenerated(), g2.heights(), b, pos),
            3,
        ),
{
    law_generation_independent_of_history(g1.pregenerated(), g2.pregenerated(), g1.heights(), b, g1.decorator(), pos);
}

} // verus!
