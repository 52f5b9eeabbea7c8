use vstd::prelude::*;
use std::collections::VecDeque;
use crate::chunk::{Chunk, ChunkPos, CHUNK_SIZE};
use crate::world::HighestOpaqueBlock;

verus! {

/// Light levels of the blocks of one chunk, indexed like the blocks of a chunk
pub struct LightData {
    pub light_level: Vec<u8>,
}

impl LightData {
    /// All blocks dark
    pub fn new() -> (r: LightData)
        ensures
            r.light_level@ == Seq::new(32768, |i: int| 0u8),
    {
        let mut light_level: Vec<u8> = Vec::with_capacity(32768);
        let mut i: usize = 0;
        while i < 32768
            invariant
                i <= 32768,
                light_level@ == Seq::new(i as nat, |k: int| 0u8),
            decreases 32768 - i,
        {
            light_level.push(0);
            i = i + 1;
        }
        LightData { light_level }
    }
}

/// The light levels of a chunk at some position, indexed like its blocks
pub struct LightChunk {
    pub pos: ChunkPos,
    pub light: Vec<u8>,
}

impl LightChunk {
    /// One light level per block of the chunk
    pub open spec fn wf(&self) -> bool {
        self.light@.len() == 32768
    }

    /// Light level at some position
    pub fn get_light_at(&self, p: (u32, u32, u32)) -> (l: u8)
        requires
            self.wf(),
            p.0 < 32 && p.1 < 32 && p.2 < 32,
        ensures
            l == self.light@[p.0 * 1024 + p.1 * 32 + p.2],
    {
        let (px, py, pz) = p;
        self.light[(px * CHUNK_SIZE * CHUNK_SIZE + py * CHUNK_SIZE + pz) as usize]
    }
}

/// Number of cells of a 3x3x3 block of chunks
pub open spec fn grid_len() -> int {
    884736int
}

/// A cell of the 3x3x3 block of chunks, by its coordinates (96 blocks along each axis)
pub open spec fn in_grid(x: int, y: int, z: int) -> bool {
    0 <= x < 96 && 0 <= y < 96 && 0 <= z < 96
}

/// Position of a cell in the flat storage of the 3x3x3 block (x major, then y, then z)
pub open spec fn grid_index(x: int, y: int, z: int) -> int {
    x * 9216 + y * 96 + z
}

/// The cell next to a cell in one of the six directions -x, +x, -y, +y, -z, +z
pub open spec fn neighbor(x: int, y: int, z: int, d: int) -> (int, int, int) {
    if d == 0 {
        (x - 1, y, z)
    } else if d == 1 {
        (x + 1, y, z)
    } else if d == 2 {
        (x, y - 1, z)
    } else if d == 3 {
        (x, y + 1, z)
    } else if d == 4 {
        (x, y, z - 1)
    } else {
        (x, y, z + 1)
    }
}

/// A cell that light does not enter: marked opaque, or lit from the start
/// without being a source that spreads its light
pub open spec fn blocked(
    op: spec_fn(int, int, int) -> bool,
    st: spec_fn(int, int, int) -> u8,
    src: spec_fn(int, int, int) -> bool,
    x: int,
    y: int,
    z: int,
) -> bool {
    op(x, y, z) || (st(x, y, z) == 15 && !src(x, y, z))
}

/// A light field that is stable for the spreading rule: blocked cells keep their
/// starting level, no cell is below its starting level, a source lights its open
/// neighbours to 14 at least, and an open cell is at most one level above each of
/// its open neighbours
pub open spec fn field_closed(
    op: spec_fn(int, int, int) -> bool,
    st: spec_fn(int, int, int) -> u8,
    src: spec_fn(int, int, int) -> bool,
    lf: Seq<u8>,
) -> bool {
    &&& lf.len() == grid_len()
    &&& forall|x: int, y: int, z: int|
        #![trigger lf[grid_index(x, y, z)]]
        in_grid(x, y, z) ==> {
            &&& blocked(op, st, src, x, y, z) ==> lf[grid_index(x, y, z)] == st(x, y, z)
            &&& lf[grid_index(x, y, z)] >= st(x, y, z)
        }
    &&& forall|x: int, y: int, z: int, d: int|
        #![trigger neighbor(x, y, z, d)]
        in_grid(x, y, z) && 0 <= d < 6 && in_grid(neighbor(x, y, z, d).0, neighbor(x, y, z, d).1, neighbor(x, y, z, d).2)
            && !blocked(op, st, src, neighbor(x, y, z, d).0, neighbor(x, y, z, d).1, neighbor(x, y, z, d).2) ==> {
            &&& src(x, y, z) ==> lf[grid_index(neighbor(x, y, z, d).0, neighbor(x, y, z, d).1, neighbor(x, y, z, d).2)] >= 14
            &&& !blocked(op, st, src, x, y, z) ==> lf[grid_index(neighbor(x, y, z, d).0, neighbor(x, y, z, d).1, neighbor(x, y, z, d).2)] + 1
                >= lf[grid_index(x, y, z)]
        }
}

/// Every cell of `a` is at most the same cell of `b`
pub open spec fn field_below(a: Seq<u8>, b: Seq<u8>) -> bool {
    forall|x: int, y: int, z: int|
        #![trigger a[grid_index(x, y, z)]]
        in_grid(x, y, z) ==> a[grid_index(x, y, z)] <= b[grid_index(x, y, z)]
}

/// The least stable light field: stable, and below every stable field
pub open spec fn least_field(
    op: spec_fn(int, int, int) -> bool,
    st: spec_fn(int, int, int) -> u8,
    src: spec_fn(int, int, int) -> bool,
    lf: Seq<u8>,
) -> bool {
    &&& field_closed(op, st, src, lf)
    &&& forall|lp: Seq<u8>| #[trigger] field_closed(op, st, src, lp) ==> field_below(lf, lp)
}

/// Two least stable fields are the same field
pub proof fn lemma_least_field_unique(
    op: spec_fn(int, int, int) -> bool,
    st: spec_fn(int, int, int) -> u8,
    src: spec_fn(int, int, int) -> bool,
    a: Seq<u8>,
    b: Seq<u8>,
)
    requires
        least_field(op, st, src, a),
        least_field(op, st, src, b),
    ensures
        a == b,
{
    assert(field_below(a, b));
    assert(field_below(b, a));
    assert forall|i: int| 0 <= i < a.len() implies a[i] == b[i] by {
        let x = i / 9216;
        let y = (i % 9216) / 96;
        let z = i % 96;
        assert(grid_index(x, y, z) == i);
        assert(a[grid_index(x, y, z)] <= b[grid_index(x, y, z)]);
        assert(b[grid_index(x, y, z)] <= a[grid_index(x, y, z)]);
    }
    assert(a =~= b);
}

/// How far a field is from being fully lit, summed over its cells
pub open spec fn light_deficit(s: Seq<u8>) -> int
    decreases s.len(),
{
    if s.len() == 0 {
        0
    } else {
        light_deficit(s.drop_last()) + (15 - s.last())
    }
}

proof fn lemma_deficit_update(s: Seq<u8>, i: int, v: u8)
    requires
        0 <= i < s.len(),
    ensures
        light_deficit(s.update(i, v)) == light_deficit(s) - v + s[i],
    decreases s.len(),
{
    if i == s.len() - 1 {
        assert(s.update(i, v).drop_last() =~= s.drop_last());
    } else {
        assert(s.update(i, v).drop_last() =~= s.drop_last().update(i, v));
        lemma_deficit_update(s.drop_last(), i, v);
    }
}

proof fn lemma_deficit_nonneg(s: Seq<u8>)
    requires
        forall|i: int| 0 <= i < s.len() ==> s[i] <= 15,
    ensures
        light_deficit(s) >= 0,
    decreases s.len(),
{
    if s.len() > 0 {
        lemma_deficit_nonneg(s.drop_last());
    }
}

/// Some entry of the queue is at cell (x, y, z) with level `v`
pub open spec fn pending(q: Seq<(usize, usize, usize, u8)>, x: int, y: int, z: int, v: int) -> bool {
    exists|k: int|
        #![trigger q[k]]
        0 <= k < q.len() && q[k].0 == x && q[k].1 == y && q[k].2 == z && q[k].3 == v
}

/// The entry being spread, at cell (x, y, z) with a level of at least `v`, still
/// has direction `d` to visit
pub open spec fn spreading(cur: Option<(usize, usize, usize, u8)>, dmin: int, x: int, y: int, z: int, d: int, v: int) -> bool {
    match cur {
        Some(e) => e.0 == x && e.1 == y && e.2 == z && e.3 >= v && d >= dmin,
        None => false,
    }
}

/// A queue entry is in the grid and is either a source at full level or an open
/// cell at a level it has reached
pub open spec fn entry_ok(
    op: spec_fn(int, int, int) -> bool,
    st: spec_fn(int, int, int) -> u8,
    src: spec_fn(int, int, int) -> bool,
    lf: Seq<u8>,
    e: (usize, usize, usize, u8),
) -> bool {
    &&& in_grid(e.0 as int, e.1 as int, e.2 as int)
    &&& (src(e.0 as int, e.1 as int, e.2 as int) && e.3 == 15) || (!blocked(op, st, src, e.0 as int, e.1 as int, e.2 as int)
        && e.3 <= lf[grid_index(e.0 as int, e.1 as int, e.2 as int)])
}

/// The state of the spreading loop: levels in range and never below the start,
/// every queue entry justified, every rule of a stable field met but where an
/// entry still waits to spread, and the field below every stable field
pub open spec fn spread_state(
    op: spec_fn(int, int, int) -> bool,
    st: spec_fn(int, int, int) -> u8,
    src: spec_fn(int, int, int) -> bool,
    lf: Seq<u8>,
    q: Seq<(usize, usize, usize, u8)>,
    cur: Option<(usize, usize, usize, u8)>,
    dmin: int,
) -> bool {
    &&& lf.len() == grid_len()
    &&& forall|x: int, y: int, z: int|
        #![trigger lf[grid_index(x, y, z)]]
        in_grid(x, y, z) ==> {
            &&& lf[grid_index(x, y, z)] <= 15
            &&& blocked(op, st, src, x, y, z) ==> lf[grid_index(x, y, z)] == st(x, y, z)
            &&& lf[grid_index(x, y, z)] >= st(x, y, z)
        }
    &&& forall|k: int| 0 <= k < q.len() ==> entry_ok(op, st, src, lf, #[trigger] q[k])
    &&& cur matches Some(e) ==> entry_ok(op, st, src, lf, e)
    &&& forall|x: int, y: int, z: int, d: int|
        #![trigger neighbor(x, y, z, d)]
        in_grid(x, y, z) && 0 <= d < 6 && in_grid(neighbor(x, y, z, d).0, neighbor(x, y, z, d).1, neighbor(x, y, z, d).2)
            && !blocked(op, st, src, neighbor(x, y, z, d).0, neighbor(x, y, z, d).1, neighbor(x, y, z, d).2) ==> {
            &&& src(x, y, z) ==> lf[grid_index(neighbor(x, y, z, d).0, neighbor(x, y, z, d).1, neighbor(x, y, z, d).2)] >= 14
                || pending(q, x, y, z, 15) || spreading(cur, dmin, x, y, z, d, 15)
            &&& !blocked(op, st, src, x, y, z) ==> lf[grid_index(neighbor(x, y, z, d).0, neighbor(x, y, z, d).1, neighbor(x, y, z, d).2)] + 1
                >= lf[grid_index(x, y, z)] || pending(q, x, y, z, lf[grid_index(x, y, z)] as int)
                || spreading(cur, dmin, x, y, z, d, lf[grid_index(x, y, z)] as int)
        }
    &&& forall|lp: Seq<u8>| #[trigger] field_closed(op, st, src, lp) ==> field_below(lf, lp)
}


/// Taking the first entry out of the queue to spread it keeps the loop state
proof fn lemma_spread_pop(
    op: spec_fn(int, int, int) -> bool,
    st: spec_fn(int, int, int) -> u8,
    src: spec_fn(int, int, int) -> bool,
    lf: Seq<u8>,
    q: Seq<(usize, usize, usize, u8)>,
)
    requires
        spread_state(op, st, src, lf, q, None, 6),
        q.len() > 0,
    ensures
        spread_state(op, st, src, lf, q.subrange(1, q.len() as int), Some(q[0]), 0),
{
    let q2 = q.subrange(1, q.len() as int);
    let cur = Some(q[0]);
    assert(entry_ok(op, st, src, lf, q[0]));
    assert forall|k: int| 0 <= k < q2.len() implies entry_ok(op, st, src, lf, #[trigger] q2[k]) by {
        assert(q2[k] == q[k + 1]);
    }
    assert forall|x: int, y: int, z: int, v: int| #[trigger] pending(q, x, y, z, v) implies pending(q2, x, y, z, v)
        || (q[0].0 == x && q[0].1 == y && q[0].2 == z && q[0].3 == v) by {
        let k = choose|k: int|
            #![trigger q[k]]
            0 <= k < q.len() && q[k].0 == x && q[k].1 == y && q[k].2 == z && q[k].3 == v;
        if k > 0 {
            assert(q2[k - 1] == q[k]);
        }
    }
}

/// A direction whose neighbour lies outside the grid has nothing to spread to
proof fn lemma_spread_skip(
    op: spec_fn(int, int, int) -> bool,
    st: spec_fn(int, int, int) -> u8,
    src: spec_fn(int, int, int) -> bool,
    lf: Seq<u8>,
    q: Seq<(usize, usize, usize, u8)>,
    e: (usize, usize, usize, u8),
    d: int,
)
    requires
        spread_state(op, st, src, lf, q, Some(e), d),
        0 <= d < 6,
        !in_grid(neighbor(e.0 as int, e.1 as int, e.2 as int, d).0, neighbor(e.0 as int, e.1 as int, e.2 as int, d).1,
            neighbor(e.0 as int, e.1 as int, e.2 as int, d).2),
    ensures
        spread_state(op, st, src, lf, q, Some(e), d + 1),
{
}

/// Once every direction of an entry is visited, the entry is no longer needed
proof fn lemma_spread_done(
    op: spec_fn(int, int, int) -> bool,
    st: spec_fn(int, int, int) -> u8,
    src: spec_fn(int, int, int) -> bool,
    lf: Seq<u8>,
    q: Seq<(usize, usize, usize, u8)>,
    e: (usize, usize, usize, u8),
    d: int,
)
    requires
        spread_state(op, st, src, lf, q, Some(e), d),
        d == 6 || (d == 0 && e.3 == 0),
    ensures
        spread_state(op, st, src, lf, q, None, 6),
{
}

/// A neighbour that is opaque or already bright enough is left as it is
proof fn lemma_spread_keep(
    op: spec_fn(int, int, int) -> bool,
    st: spec_fn(int, int, int) -> u8,
    src: spec_fn(int, int, int) -> bool,
    lf: Seq<u8>,
    q: Seq<(usize, usize, usize, u8)>,
    e: (usize, usize, usize, u8),
    d: int,
)
    requires
        spread_state(op, st, src, lf, q, Some(e), d),
        0 <= d < 6,
        e.3 >= 1,
        in_grid(neighbor(e.0 as int, e.1 as int, e.2 as int, d).0, neighbor(e.0 as int, e.1 as int, e.2 as int, d).1,
            neighbor(e.0 as int, e.1 as int, e.2 as int, d).2),
        op(neighbor(e.0 as int, e.1 as int, e.2 as int, d).0, neighbor(e.0 as int, e.1 as int, e.2 as int, d).1,
            neighbor(e.0 as int, e.1 as int, e.2 as int, d).2) || lf[grid_index(
            neighbor(e.0 as int, e.1 as int, e.2 as int, d).0,
            neighbor(e.0 as int, e.1 as int, e.2 as int, d).1,
            neighbor(e.0 as int, e.1 as int, e.2 as int, d).2,
        )] >= e.3 - 1,
    ensures
        spread_state(op, st, src, lf, q, Some(e), d + 1),
{
}

/// Lighting an open neighbour one level below the spread entry, and queueing it,
/// keeps the loop state and brings the field closer to fully lit
proof fn lemma_spread_light(
    op: spec_fn(int, int, int) -> bool,
    st: spec_fn(int, int, int) -> u8,
    src: spec_fn(int, int, int) -> bool,
    lf: Seq<u8>,
    q: Seq<(usize, usize, usize, u8)>,
    e: (usize, usize, usize, u8),
    d: int,
    n: (usize, usize, usize),
)
    requires
        spread_state(op, st, src, lf, q, Some(e), d),
        0 <= d < 6,
        e.3 >= 1,
        neighbor(e.0 as int, e.1 as int, e.2 as int, d) == (n.0 as int, n.1 as int, n.2 as int),
        in_grid(n.0 as int, n.1 as int, n.2 as int),
        !op(n.0 as int, n.1 as int, n.2 as int),
        lf[grid_index(n.0 as int, n.1 as int, n.2 as int)] < e.3 - 1,
    ensures
        spread_state(
            op,
            st,
            src,
            lf.update(grid_index(n.0 as int, n.1 as int, n.2 as int), (e.3 - 1) as u8),
            q.push((n.0, n.1, n.2, (e.3 - 1) as u8)),
            Some(e),
            d + 1,
        ),
        light_deficit(lf.update(grid_index(n.0 as int, n.1 as int, n.2 as int), (e.3 - 1) as u8)) < light_deficit(lf),
{
    let (a, b, c) = (n.0 as int, n.1 as int, n.2 as int);
    let t = grid_index(a, b, c);
    let v = (e.3 - 1) as u8;
    let lf2 = lf.update(t, v);
    let ne = (n.0, n.1, n.2, v);
    let q2 = q.push(ne);
    let (ex, ey, ez) = (e.0 as int, e.1 as int, e.2 as int);
    lemma_grid_index_injective(a, b, c, a, b, c);
    assert(lf[grid_index(a, b, c)] >= st(a, b, c));
    assert(!blocked(op, st, src, a, b, c));
    assert forall|x: int, y: int, z: int| in_grid(x, y, z) implies #[trigger] lf2[grid_index(x, y, z)] >= lf[grid_index(
        x,
        y,
        z,
    )] && (!(x == a && y == b && z == c) ==> lf2[grid_index(x, y, z)] == lf[grid_index(x, y, z)]) by {
        lemma_grid_index_injective(x, y, z, a, b, c);
    }
    assert forall|x: int, y: int, z: int| #![trigger lf2[grid_index(x, y, z)]] in_grid(x, y, z) implies {
        &&& lf2[grid_index(x, y, z)] <= 15
        &&& blocked(op, st, src, x, y, z) ==> lf2[grid_index(x, y, z)] == st(x, y, z)
        &&& lf2[grid_index(x, y, z)] >= st(x, y, z)
    } by {
        lemma_grid_index_injective(x, y, z, a, b, c);
        assert(lf[grid_index(x, y, z)] <= 15);
    }
    assert(entry_ok(op, st, src, lf2, ne));
    assert forall|k: int| 0 <= k < q2.len() implies entry_ok(op, st, src, lf2, #[trigger] q2[k]) by {
        if k < q.len() {
            assert(q2[k] == q[k]);
            assert(entry_ok(op, st, src, lf, q[k]));
            assert(lf2[grid_index(q[k].0 as int, q[k].1 as int, q[k].2 as int)] >= lf[grid_index(
                q[k].0 as int,
                q[k].1 as int,
                q[k].2 as int,
            )]);
        }
    }
    assert(entry_ok(op, st, src, lf, e));
    assert(lf2[grid_index(ex, ey, ez)] >= lf[grid_index(ex, ey, ez)]);
    assert(entry_ok(op, st, src, lf2, e));
    assert forall|x: int, y: int, z: int, w: int| #[trigger] pending(q, x, y, z, w) implies pending(q2, x, y, z, w) by {
        let k = choose|k: int|
            #![trigger q[k]]
            0 <= k < q.len() && q[k].0 == x && q[k].1 == y && q[k].2 == z && q[k].3 == w;
        assert(q2[k] == q[k]);
    }
    assert(q2[q.len() as int] == ne);
    assert(pending(q2, a, b, c, v as int));
    assert forall|x: int, y: int, z: int, dd: int|
        #![trigger neighbor(x, y, z, dd)]
        in_grid(x, y, z) && 0 <= dd < 6 && in_grid(neighbor(x, y, z, dd).0, neighbor(x, y, z, dd).1, neighbor(x, y, z, dd).2)
            && !blocked(op, st, src, neighbor(x, y, z, dd).0, neighbor(x, y, z, dd).1, neighbor(x, y, z, dd).2) implies {
            &&& src(x, y, z) ==> lf2[grid_index(neighbor(x, y, z, dd).0, neighbor(x, y, z, dd).1, neighbor(x, y, z, dd).2)] >= 14
                || pending(q2, x, y, z, 15) || spreading(Some(e), d + 1, x, y, z, dd, 15)
            &&& !blocked(op, st, src, x, y, z) ==> lf2[grid_index(neighbor(x, y, z, dd).0, neighbor(x, y, z, dd).1, neighbor(x, y, z, dd).2)] + 1
                >= lf2[grid_index(x, y, z)] || pending(q2, x, y, z, lf2[grid_index(x, y, z)] as int)
                || spreading(Some(e), d + 1, x, y, z, dd, lf2[grid_index(x, y, z)] as int)
        } by {
        let (p, r, s) = neighbor(x, y, z, dd);
        assert(lf2[grid_index(p, r, s)] >= lf[grid_index(p, r, s)]);
        assert(lf2[grid_index(x, y, z)] >= lf[grid_index(x, y, z)]);
        if x == a && y == b && z == c {
            assert(lf2[grid_index(x, y, z)] == v);
        } else {
            assert(lf2[grid_index(x, y, z)] == lf[grid_index(x, y, z)]);
        }
        if dd == d && x == ex && y == ey && z == ez {
            assert(p == a && r == b && s == c);
        }
    }
    assert forall|lp: Seq<u8>| #[trigger] field_closed(op, st, src, lp) implies field_below(lf2, lp) by {
        assert(field_below(lf, lp));
        assert(neighbor(ex, ey, ez, d) == (a, b, c));
        assert(lf[grid_index(ex, ey, ez)] <= lp[grid_index(ex, ey, ez)]);
        assert(lp[grid_index(a, b, c)] >= v);
        assert forall|x: int, y: int, z: int| #![trigger lf2[grid_index(x, y, z)]] in_grid(x, y, z) implies lf2[grid_index(
            x,
            y,
            z,
        )] <= lp[grid_index(x, y, z)] by {
            lemma_grid_index_injective(x, y, z, a, b, c);
            assert(lf[grid_index(x, y, z)] <= lp[grid_index(x, y, z)]);
        }
    }
    lemma_deficit_update(lf, t, v);
}


/// The opaque marks of the grid cells are those of `op`
pub open spec fn opaque_marks(op: spec_fn(int, int, int) -> bool, opaque: Seq<bool>) -> bool {
    &&& opaque.len() == grid_len()
    &&& forall|x: int, y: int, z: int|
        #![trigger opaque[grid_index(x, y, z)]]
        in_grid(x, y, z) ==> opaque[grid_index(x, y, z)] == op(x, y, z)
}

/// Every level of a field is at most full light
pub open spec fn levels_in_range(lf: Seq<u8>) -> bool {
    forall|i: int| 0 <= i < lf.len() ==> #[trigger] lf[i] <= 15
}

/// Spread the light of entry `e` to its neighbour (nx, ny, nz), in direction `d`:
/// an open neighbour darker than one level below the entry gets that level and
/// is queued in turn
fn spread_toward(
    light: &mut Vec<u8>,
    queue: &mut VecDeque<(usize, usize, usize, u8)>,
    opaque: &Vec<bool>,
    nx: usize,
    ny: usize,
    nz: usize,
    ll: u8,
    Ghost(op): Ghost<spec_fn(int, int, int) -> bool>,
    Ghost(st): Ghost<spec_fn(int, int, int) -> u8>,
    Ghost(src): Ghost<spec_fn(int, int, int) -> bool>,
    Ghost(e): Ghost<(usize, usize, usize, u8)>,
    Ghost(d): Ghost<int>,
)
    requires
        spread_state(op, st, src, old(light)@, old(queue)@, Some(e), d),
        levels_in_range(old(light)@),
        opaque_marks(op, opaque@),
        0 <= d < 6,
        e.3 == ll,
        ll >= 1,
        neighbor(e.0 as int, e.1 as int, e.2 as int, d) == (nx as int, ny as int, nz as int),
        in_grid(nx as int, ny as int, nz as int),
    ensures
        spread_state(op, st, src, final(light)@, final(queue)@, Some(e), d + 1),
        levels_in_range(final(light)@),
        (final(light)@ == old(light)@ && final(queue)@ == old(queue)@) || light_deficit(final(light)@) < light_deficit(
            old(light)@,
        ),
{
    let t = nx * 9216 + ny * 96 + nz;
    proof {
        lemma_grid_index_injective(nx as int, ny as int, nz as int, nx as int, ny as int, nz as int);
    }
    if !opaque[t] && light[t] < ll - 1 {
        proof {
            lemma_spread_light(op, st, src, light@, queue@, e, d, (nx, ny, nz));
        }
        light.set(t, ll - 1);
        queue.push_back((nx, ny, nz, ll - 1));
    } else {
        proof {
            lemma_spread_keep(op, st, src, light@, queue@, e, d);
        }
    }
}

/// Spread the light of the queued entries through the grid, one level dimmer per
/// step, into the least stable light field
fn spread_light(
    light: &mut Vec<u8>,
    opaque: &Vec<bool>,
    queue: &mut VecDeque<(usize, usize, usize, u8)>,
    Ghost(op): Ghost<spec_fn(int, int, int) -> bool>,
    Ghost(st): Ghost<spec_fn(int, int, int) -> u8>,
    Ghost(src): Ghost<spec_fn(int, int, int) -> bool>,
)
    requires
        spread_state(op, st, src, old(light)@, old(queue)@, None, 6),
        levels_in_range(old(light)@),
        opaque_marks(op, opaque@),
    ensures
        least_field(op, st, src, final(light)@),
{
    while queue.len() > 0
        invariant
            spread_state(op, st, src, light@, queue@, None, 6),
            levels_in_range(light@),
            opaque_marks(op, opaque@),
        decreases light_deficit(light@), queue@.len(),
    {
        let ghost l0 = light@;
        let ghost q0 = queue@;
        proof {
            lemma_deficit_nonneg(light@);
            lemma_spread_pop(op, st, src, light@, queue@);
        }
        let (x, y, z, ll) = queue.pop_front().unwrap();
        let ghost e = (x, y, z, ll);
        assert(entry_ok(op, st, src, light@, e));
        if ll >= 1 {
            if x > 0 {
                spread_toward(light, queue, opaque, x - 1, y, z, ll, Ghost(op), Ghost(st), Ghost(src), Ghost(e), Ghost(0));
            } else {
                proof { lemma_spread_skip(op, st, src, light@, queue@, e, 0); }
            }
            if x < 95 {
                spread_toward(light, queue, opaque, x + 1, y, z, ll, Ghost(op), Ghost(st), Ghost(src), Ghost(e), Ghost(1));
            } else {
                proof { lemma_spread_skip(op, st, src, light@, queue@, e, 1); }
            }
            if y > 0 {
                spread_toward(light, queue, opaque, x, y - 1, z, ll, Ghost(op), Ghost(st), Ghost(src), Ghost(e), Ghost(2));
            } else {
                proof { lemma_spread_skip(op, st, src, light@, queue@, e, 2); }
            }
            if y < 95 {
                spread_toward(light, queue, opaque, x, y + 1, z, ll, Ghost(op), Ghost(st), Ghost(src), Ghost(e), Ghost(3));
            } else {
                proof { lemma_spread_skip(op, st, src, light@, queue@, e, 3); }
            }
            if z > 0 {
                spread_toward(light, queue, opaque, x, y, z - 1, ll, Ghost(op), Ghost(st), Ghost(src), Ghost(e), Ghost(4));
            } else {
                proof { lemma_spread_skip(op, st, src, light@, queue@, e, 4); }
            }
            if z < 95 {
                spread_toward(light, queue, opaque, x, y, z + 1, ll, Ghost(op), Ghost(st), Ghost(src), Ghost(e), Ghost(5));
            } else {
                proof { lemma_spread_skip(op, st, src, light@, queue@, e, 5); }
            }
            proof { lemma_spread_done(op, st, src, light@, queue@, e, 6); }
        } else {
            proof { lemma_spread_done(op, st, src, light@, queue@, e, 0); }
        }
        proof {
            lemma_deficit_nonneg(light@);
        }
        assert(light_deficit(light@) < light_deficit(l0) || (light@ == l0 && queue@.len() < q0.len()));
    }
}


/// Slot, in the list of 27 chunks (x major, then y, then z), of the chunk that
/// holds a cell
pub open spec fn slot_of(x: int, y: int, z: int) -> int {
    (x / 32) * 9 + (y / 32) * 3 + z / 32
}

/// The chunk that holds a cell is present
pub open spec fn loaded(chunks: Seq<Option<&Chunk>>, x: int, y: int, z: int) -> bool {
    chunks[slot_of(x, y, z)] is Some
}

/// The block at a cell is not air; the cells of a missing chunk are air
pub open spec fn cell_solid(chunks: Seq<Option<&Chunk>>, x: int, y: int, z: int) -> bool {
    match chunks[slot_of(x, y, z)] {
        Some(c) => c.data@[(x % 32) * 1024 + (y % 32) * 32 + z % 32] != 0,
        None => false,
    }
}

/// The middle chunk's vertical chunk position
pub open spec fn middle_py(chunks: Seq<Option<&Chunk>>) -> int {
    match chunks[13] {
        Some(c) => c.pos.py as int,
        None => 0,
    }
}

/// World height of a cell: from the position of its chunk, or for a missing
/// chunk from the position of the middle chunk and the layer of the slot
pub open spec fn cell_height(chunks: Seq<Option<&Chunk>>, x: int, y: int, z: int) -> int {
    match chunks[slot_of(x, y, z)] {
        Some(c) => c.pos.py * 32 + y % 32,
        None => (middle_py(chunks) + y / 32 - 1) * 32 + y % 32,
    }
}

/// Height of the highest opaque block of the column of a cell
pub open spec fn column_top(hobs: Seq<HighestOpaqueBlock>, x: int, z: int) -> int {
    hobs[(x / 32) * 3 + z / 32].y@[(x % 32) * 32 + z % 32] as int
}

/// A cell open to the sky: air, above the highest opaque block of its column
pub open spec fn sky_lit(chunks: Seq<Option<&Chunk>>, hobs: Seq<HighestOpaqueBlock>, x: int, y: int, z: int) -> bool {
    !cell_solid(chunks, x, y, z) && cell_height(chunks, x, y, z) > column_top(hobs, x, z)
}

/// Opaque marks before the light spreads: the solid blocks of the present chunks
pub open spec fn start_opaque(chunks: Seq<Option<&Chunk>>, x: int, y: int, z: int) -> bool {
    cell_solid(chunks, x, y, z)
}

/// Light before it spreads: full on the cells open to the sky
pub open spec fn start_light(chunks: Seq<Option<&Chunk>>, hobs: Seq<HighestOpaqueBlock>, x: int, y: int, z: int) -> u8 {
    if sky_lit(chunks, hobs, x, y, z) {
        15
    } else {
        0
    }
}

/// The light field of a 3x3x3 block of chunks: the least stable field where the
/// sky-lit cells are the sources, with the starting marks above
pub open spec fn is_light_field(chunks: Seq<Option<&Chunk>>, hobs: Seq<HighestOpaqueBlock>, lf: Seq<u8>) -> bool {
    least_field(opaque_marks_of(chunks), start_light_of(chunks, hobs), sources_of(chunks, hobs), lf)
}

/// The starting opaque marks of a block of chunks, as a function of the cell
pub open spec fn opaque_marks_of(chunks: Seq<Option<&Chunk>>) -> spec_fn(int, int, int) -> bool {
    |x: int, y: int, z: int| start_opaque(chunks, x, y, z)
}

/// The starting light of a block of chunks, as a function of the cell
pub open spec fn start_light_of(chunks: Seq<Option<&Chunk>>, hobs: Seq<HighestOpaqueBlock>) -> spec_fn(int, int, int) -> u8 {
    |x: int, y: int, z: int| start_light(chunks, hobs, x, y, z)
}

/// The light sources of a block of chunks, as a function of the cell
pub open spec fn sources_of(chunks: Seq<Option<&Chunk>>, hobs: Seq<HighestOpaqueBlock>) -> spec_fn(int, int, int) -> bool {
    |x: int, y: int, z: int| sky_lit(chunks, hobs, x, y, z)
}

/// The middle chunk's share of a light field, indexed like the blocks of a chunk
pub open spec fn middle_light(lf: Seq<u8>) -> Seq<u8> {
    Seq::new(32768, |n: int| lf[grid_index(n / 1024 + 32, (n / 32) % 32 + 32, n % 32 + 32)])
}

/// Heights `v * 32 + j`, for a layer `j` of a chunk, fit in an `i64`
pub open spec fn height_fits(v: int) -> bool {
    i64::MIN <= v * 32 && v * 32 + 31 <= i64::MAX
}

/// Every height compared while seeding the light fits in an `i64`: for a missing
/// chunk, the heights of its layer of the block; for a present chunk, those of
/// its layers that hold air
pub open spec fn light_heights_fit(chunks: Seq<Option<&Chunk>>) -> bool {
    forall|t: int|
        0 <= t < 27 ==> match #[trigger] chunks[t] {
            None => height_fits(middle_py(chunks) + (t / 3) % 3 - 1),
            Some(c) => forall|i: int, j: int, k: int|
                0 <= i < 32 && 0 <= j < 32 && 0 <= k < 32 && #[trigger] c.data@[i * 1024 + j * 32 + k] == 0 ==> i64::MIN
                    <= c.pos.py * 32 && c.pos.py * 32 + j <= i64::MAX,
        }
}

/// State of the seeding loops, once the cells of `done` have been visited: the
/// opaque marks, starting light and queued sources are those of the visited cells
pub open spec fn seeded(
    chunks: Seq<Option<&Chunk>>,
    hobs: Seq<HighestOpaqueBlock>,
    op: Seq<bool>,
    li: Seq<u8>,
    q: Seq<(usize, usize, usize, u8)>,
    done: spec_fn(int, int, int) -> bool,
) -> bool {
    &&& op.len() == grid_len()
    &&& li.len() == grid_len()
    &&& levels_in_range(li)
    &&& forall|x: int, y: int, z: int|
        #![trigger op[grid_index(x, y, z)]]
        in_grid(x, y, z) ==> op[grid_index(x, y, z)] == (done(x, y, z) && cell_solid(chunks, x, y, z))
    &&& forall|x: int, y: int, z: int|
        #![trigger li[grid_index(x, y, z)]]
        in_grid(x, y, z) ==> li[grid_index(x, y, z)] == (if done(x, y, z) && sky_lit(chunks, hobs, x, y, z) {
            15u8
        } else {
            0u8
        })
    &&& forall|x: int, y: int, z: int|
        #![trigger sky_lit(chunks, hobs, x, y, z)]
        in_grid(x, y, z) && done(x, y, z) && sky_lit(chunks, hobs, x, y, z) ==> pending(q, x, y, z, 15)
    &&& forall|k: int|
        #![trigger q[k]]
        0 <= k < q.len() ==> in_grid(q[k].0 as int, q[k].1 as int, q[k].2 as int) && q[k].3 == 15 && done(
            q[k].0 as int,
            q[k].1 as int,
            q[k].2 as int,
        ) && sky_lit(chunks, hobs, q[k].0 as int, q[k].1 as int, q[k].2 as int)
}

/// Visiting more cells that are neither solid nor open to the sky changes nothing
proof fn lemma_seed_inert(
    chunks: Seq<Option<&Chunk>>,
    hobs: Seq<HighestOpaqueBlock>,
    op: Seq<bool>,
    li: Seq<u8>,
    q: Seq<(usize, usize, usize, u8)>,
    done: spec_fn(int, int, int) -> bool,
    done2: spec_fn(int, int, int) -> bool,
)
    requires
        seeded(chunks, hobs, op, li, q, done),
        forall|x: int, y: int, z: int| in_grid(x, y, z) && #[trigger] done(x, y, z) ==> done2(x, y, z),
        forall|x: int, y: int, z: int|
            in_grid(x, y, z) && #[trigger] done2(x, y, z) && !done(x, y, z) ==> !cell_solid(chunks, x, y, z) && !sky_lit(
                chunks,
                hobs,
                x,
                y,
                z,
            ),
    ensures
        seeded(chunks, hobs, op, li, q, done2),
{
    assert forall|x: int, y: int, z: int|
        #![trigger op[grid_index(x, y, z)]]
        in_grid(x, y, z) implies op[grid_index(x, y, z)] == (done2(x, y, z) && cell_solid(chunks, x, y, z)) by {
        if done(x, y, z) {
            assert(done2(x, y, z));
        }
    }
    assert forall|x: int, y: int, z: int|
        #![trigger li[grid_index(x, y, z)]]
        in_grid(x, y, z) implies li[grid_index(x, y, z)] == (if done2(x, y, z) && sky_lit(chunks, hobs, x, y, z) {
            15u8
        } else {
            0u8
        }) by {
        if done(x, y, z) {
            assert(done2(x, y, z));
        }
    }
    assert forall|k: int| #![trigger q[k]] 0 <= k < q.len() implies done2(q[k].0 as int, q[k].1 as int, q[k].2 as int) by {
        assert(done(q[k].0 as int, q[k].1 as int, q[k].2 as int));
    }
}

/// Visiting one more cell, with the mark, light and queue entry that the cell
/// brings, keeps the seeding state
proof fn lemma_seed_cell(
    chunks: Seq<Option<&Chunk>>,
    hobs: Seq<HighestOpaqueBlock>,
    op: Seq<bool>,
    li: Seq<u8>,
    q: Seq<(usize, usize, usize, u8)>,
    done: spec_fn(int, int, int) -> bool,
    done2: spec_fn(int, int, int) -> bool,
    px: usize,
    py: usize,
    pz: usize,
    op2: Seq<bool>,
    li2: Seq<u8>,
    q2: Seq<(usize, usize, usize, u8)>,
)
    requires
        seeded(chunks, hobs, op, li, q, done),
        in_grid(px as int, py as int, pz as int),
        !done(px as int, py as int, pz as int),
        forall|x: int, y: int, z: int|
            in_grid(x, y, z) ==> #[trigger] done2(x, y, z) == (done(x, y, z) || (x == px && y == py && z == pz)),
        cell_solid(chunks, px as int, py as int, pz as int) ==> op2 == op.update(grid_index(px as int, py as int, pz as int), true)
            && li2 == li && q2 == q,
        sky_lit(chunks, hobs, px as int, py as int, pz as int) ==> op2 == op && li2 == li.update(
            grid_index(px as int, py as int, pz as int),
            15,
        ) && q2 == q.push((px, py, pz, 15u8)),
        !cell_solid(chunks, px as int, py as int, pz as int) && !sky_lit(chunks, hobs, px as int, py as int, pz as int)
            ==> op2 == op && li2 == li && q2 == q,
    ensures
        seeded(chunks, hobs, op2, li2, q2, done2),
{
    let (a, b, c) = (px as int, py as int, pz as int);
    if !cell_solid(chunks, a, b, c) && !sky_lit(chunks, hobs, a, b, c) {
        lemma_seed_inert(chunks, hobs, op, li, q, done, done2);
        return;
    }
    let tp = grid_index(a, b, c);
    lemma_grid_index_injective(a, b, c, a, b, c);
    assert(done2(a, b, c));
    assert forall|x: int, y: int, z: int|
        #![trigger op2[grid_index(x, y, z)]]
        in_grid(x, y, z) implies op2[grid_index(x, y, z)] == (done2(x, y, z) && cell_solid(chunks, x, y, z)) by {
        lemma_grid_index_injective(x, y, z, a, b, c);
        assert(op[grid_index(x, y, z)] == (done(x, y, z) && cell_solid(chunks, x, y, z)));
    }
    assert forall|x: int, y: int, z: int|
        #![trigger li2[grid_index(x, y, z)]]
        in_grid(x, y, z) implies li2[grid_index(x, y, z)] == (if done2(x, y, z) && sky_lit(chunks, hobs, x, y, z) {
            15u8
        } else {
            0u8
        }) by {
        lemma_grid_index_injective(x, y, z, a, b, c);
        assert(li[grid_index(x, y, z)] == (if done(x, y, z) && sky_lit(chunks, hobs, x, y, z) { 15u8 } else { 0u8 }));
    }
    assert forall|i: int| 0 <= i < li2.len() implies #[trigger] li2[i] <= 15 by {
        assert(levels_in_range(li));
        if i != tp {
            assert(li2[i] == li[i]);
        }
    }
    if sky_lit(chunks, hobs, a, b, c) {
        assert(q2[q.len() as int] == (px, py, pz, 15u8));
    }
    assert forall|x: int, y: int, z: int|
        #![trigger sky_lit(chunks, hobs, x, y, z)]
        in_grid(x, y, z) && done2(x, y, z) && sky_lit(chunks, hobs, x, y, z) implies pending(q2, x, y, z, 15) by {
        if x == a && y == b && z == c {
            assert(pending(q2, x, y, z, 15));
        } else {
            assert(done(x, y, z));
            let k = choose|k: int|
                #![trigger q[k]]
                0 <= k < q.len() && q[k].0 == x && q[k].1 == y && q[k].2 == z && q[k].3 == 15;
            assert(q2[k] == q[k]);
        }
    }
    assert forall|k: int|
        #![trigger q2[k]]
        0 <= k < q2.len() implies in_grid(q2[k].0 as int, q2[k].1 as int, q2[k].2 as int) && q2[k].3 == 15 && done2(
            q2[k].0 as int,
            q2[k].1 as int,
            q2[k].2 as int,
        ) && sky_lit(chunks, hobs, q2[k].0 as int, q2[k].1 as int, q2[k].2 as int) by {
        if k < q.len() {
            assert(q2[k] == q[k]);
            assert(done2(q[k].0 as int, q[k].1 as int, q[k].2 as int));
        } else {
            assert(q2[k] == (px, py, pz, 15u8));
        }
    }
}

/// Cells visited while seeding a present chunk at slot `t`, up to its block (i0, j0, k0)
spec fn seen_loaded(t: int, i0: int, j0: int, k0: int) -> spec_fn(int, int, int) -> bool {
    |x: int, y: int, z: int|
        slot_of(x, y, z) < t || (slot_of(x, y, z) == t && (x % 32 < i0 || (x % 32 == i0 && (y % 32 < j0 || (y % 32
            == j0 && z % 32 < k0)))))
}

/// Cells visited while seeding a missing chunk at slot `t`, up to column (i0, k0),
/// whose layers from `j0` up are visited
spec fn seen_missing(t: int, i0: int, k0: int, j0: int) -> spec_fn(int, int, int) -> bool {
    |x: int, y: int, z: int|
        slot_of(x, y, z) < t || (slot_of(x, y, z) == t && (x % 32 < i0 || (x % 32 == i0 && (z % 32 < k0 || (z % 32
            == k0 && y % 32 >= j0)))))
}

/// The cell at block (i, j, k) of the chunk at slot (cx, cy, cz)
proof fn lemma_cell_of_slot(cx: int, cy: int, cz: int, i: int, j: int, k: int)
    requires
        0 <= cx < 3 && 0 <= cy < 3 && 0 <= cz < 3,
        0 <= i < 32 && 0 <= j < 32 && 0 <= k < 32,
    ensures
        in_grid(cx * 32 + i, cy * 32 + j, cz * 32 + k),
        slot_of(cx * 32 + i, cy * 32 + j, cz * 32 + k) == cx * 9 + cy * 3 + cz,
        (cx * 32 + i) / 32 == cx && (cy * 32 + j) / 32 == cy && (cz * 32 + k) / 32 == cz,
        (cx * 32 + i) % 32 == i && (cy * 32 + j) % 32 == j && (cz * 32 + k) % 32 == k,
        (cx * 9 + cy * 3 + cz) / 3 % 3 == cy,
{
    assert((cx * 32 + i) / 32 == cx && (cx * 32 + i) % 32 == i) by (nonlinear_arith)
        requires 0 <= i < 32;
    assert((cy * 32 + j) / 32 == cy && (cy * 32 + j) % 32 == j) by (nonlinear_arith)
        requires 0 <= j < 32;
    assert((cz * 32 + k) / 32 == cz && (cz * 32 + k) % 32 == k) by (nonlinear_arith)
        requires 0 <= k < 32;
    assert((cx * 9 + cy * 3 + cz) / 3 == cx * 3 + cy) by (nonlinear_arith)
        requires 0 <= cz < 3;
    assert((cx * 3 + cy) % 3 == cy) by (nonlinear_arith)
        requires 0 <= cy < 3;
}

/// A cell of the grid is the cell at its block of the chunk at its slot
proof fn lemma_slot_cells(x: int, y: int, z: int, cx: int, cy: int, cz: int)
    requires
        in_grid(x, y, z),
        0 <= cx < 3 && 0 <= cy < 3 && 0 <= cz < 3,
        slot_of(x, y, z) == cx * 9 + cy * 3 + cz,
    ensures
        x == cx * 32 + x % 32 && y == cy * 32 + y % 32 && z == cz * 32 + z % 32,
        0 <= x % 32 < 32 && 0 <= y % 32 < 32 && 0 <= z % 32 < 32,
{
    assert(x == (x / 32) * 32 + x % 32 && 0 <= x / 32 < 3 && 0 <= x % 32 < 32) by (nonlinear_arith)
        requires 0 <= x < 96;
    assert(y == (y / 32) * 32 + y % 32 && 0 <= y / 32 < 3 && 0 <= y % 32 < 32) by (nonlinear_arith)
        requires 0 <= y < 96;
    assert(z == (z / 32) * 32 + z % 32 && 0 <= z / 32 < 3 && 0 <= z % 32 < 32) by (nonlinear_arith)
        requires 0 <= z < 96;
}

/// Every cell of the grid lies in one of the 27 slots
proof fn lemma_slot_range(x: int, y: int, z: int)
    requires
        in_grid(x, y, z),
    ensures
        0 <= slot_of(x, y, z) < 27,
{
    assert(0 <= x / 32 < 3) by (nonlinear_arith)
        requires 0 <= x < 96;
    assert(0 <= y / 32 < 3) by (nonlinear_arith)
        requires 0 <= y < 96;
    assert(0 <= z / 32 < 3) by (nonlinear_arith)
        requires 0 <= z < 96;
}

/// Two descriptions of the same visited cells give the same seeding state
proof fn lemma_seed_same(
    chunks: Seq<Option<&Chunk>>,
    hobs: Seq<HighestOpaqueBlock>,
    op: Seq<bool>,
    li: Seq<u8>,
    q: Seq<(usize, usize, usize, u8)>,
    done: spec_fn(int, int, int) -> bool,
    done2: spec_fn(int, int, int) -> bool,
)
    requires
        seeded(chunks, hobs, op, li, q, done),
        forall|x: int, y: int, z: int| in_grid(x, y, z) ==> #[trigger] done(x, y, z) == done2(x, y, z),
    ensures
        seeded(chunks, hobs, op, li, q, done2),
{
    assert forall|x: int, y: int, z: int| in_grid(x, y, z) && #[trigger] done(x, y, z) implies done2(x, y, z) by {}
    assert forall|x: int, y: int, z: int| in_grid(x, y, z) && #[trigger] done2(x, y, z) && !done(x, y, z) implies !cell_solid(
        chunks,
        x,
        y,
        z,
    ) && !sky_lit(chunks, hobs, x, y, z) by {
        assert(done(x, y, z) == done2(x, y, z));
    }
    lemma_seed_inert(chunks, hobs, op, li, q, done, done2);
}

/// Once every cell is visited, the seeding state is the starting state of the
/// spreading loop for the starting marks, light and sources of the chunks
proof fn lemma_seed_finish(
    chunks: Seq<Option<&Chunk>>,
    hobs: Seq<HighestOpaqueBlock>,
    op: Seq<bool>,
    li: Seq<u8>,
    q: Seq<(usize, usize, usize, u8)>,
)
    requires
        seeded(chunks, hobs, op, li, q, seen_loaded(27, 0, 0, 0)),
    ensures
        spread_state(opaque_marks_of(chunks), start_light_of(chunks, hobs), sources_of(chunks, hobs), li, q, None, 6),
        opaque_marks(opaque_marks_of(chunks), op),
        levels_in_range(li),
{
    let done = seen_loaded(27, 0, 0, 0);
    let opf = opaque_marks_of(chunks);
    let stf = start_light_of(chunks, hobs);
    let srcf = sources_of(chunks, hobs);
    assert forall|x: int, y: int, z: int| in_grid(x, y, z) implies #[trigger] done(x, y, z) by {
        lemma_slot_range(x, y, z);
    }
    assert forall|x: int, y: int, z: int| #![trigger li[grid_index(x, y, z)]] in_grid(x, y, z) implies li[grid_index(x, y, z)]
        == start_light(chunks, hobs, x, y, z) by {
        assert(done(x, y, z));
    }
    assert forall|x: int, y: int, z: int| #![trigger op[grid_index(x, y, z)]] in_grid(x, y, z) implies op[grid_index(x, y, z)]
        == opf(x, y, z) by {
        assert(done(x, y, z));
    }
    assert forall|k: int| 0 <= k < q.len() implies entry_ok(opf, stf, srcf, li, #[trigger] q[k]) by {}
    assert forall|x: int, y: int, z: int, d: int|
        #![trigger neighbor(x, y, z, d)]
        in_grid(x, y, z) && 0 <= d < 6 && in_grid(neighbor(x, y, z, d).0, neighbor(x, y, z, d).1, neighbor(x, y, z, d).2)
            && !blocked(opf, stf, srcf, neighbor(x, y, z, d).0, neighbor(x, y, z, d).1, neighbor(x, y, z, d).2) implies {
            &&& srcf(x, y, z) ==> li[grid_index(neighbor(x, y, z, d).0, neighbor(x, y, z, d).1, neighbor(x, y, z, d).2)] >= 14
                || pending(q, x, y, z, 15) || spreading(None, 6, x, y, z, d, 15)
            &&& !blocked(opf, stf, srcf, x, y, z) ==> li[grid_index(neighbor(x, y, z, d).0, neighbor(x, y, z, d).1, neighbor(x, y, z, d).2)] + 1
                >= li[grid_index(x, y, z)] || pending(q, x, y, z, li[grid_index(x, y, z)] as int)
                || spreading(None, 6, x, y, z, d, li[grid_index(x, y, z)] as int)
        } by {
        assert(done(x, y, z));
        assert(li[grid_index(x, y, z)] == start_light(chunks, hobs, x, y, z));
    }
    assert forall|lp: Seq<u8>| #[trigger] field_closed(opf, stf, srcf, lp) implies field_below(li, lp) by {
        assert forall|x: int, y: int, z: int| #![trigger li[grid_index(x, y, z)]] in_grid(x, y, z) implies li[grid_index(x, y, z)]
            <= lp[grid_index(x, y, z)] by {
            assert(lp[grid_index(x, y, z)] >= stf(x, y, z));
        }
    }
}


/// Seed the light from a present chunk: its solid blocks are marked opaque and its
/// air blocks above the highest opaque block of their column get full light and
/// are queued as sources.
#[verifier::loop_isolation(false)]
fn seed_loaded_chunk(
    light_data: &mut Vec<u8>,
    opaque: &mut Vec<bool>,
    bfs_queue: &mut VecDeque<(usize, usize, usize, u8)>,
    c: &Chunk,
    highest_opaque_block: &HighestOpaqueBlock,
    cx: usize,
    cy: usize,
    cz: usize,
    Ghost(chunks): Ghost<Seq<Option<&Chunk>>>,
    Ghost(hobs): Ghost<Seq<HighestOpaqueBlock>>,
)
    requires
        cx < 3 && cy < 3 && cz < 3,
        chunks.len() == 27,
        hobs.len() == 9,
        chunks[cx * 9 + cy * 3 + cz] == Some(c),
        c.wf(),
        hobs[cx * 3 + cz] == *highest_opaque_block,
        highest_opaque_block.wf(),
        light_heights_fit(chunks),
        seeded(chunks, hobs, old(opaque)@, old(light_data)@, old(bfs_queue)@, seen_loaded(cx * 9 + cy * 3 + cz, 0, 0, 0)),
    ensures
        seeded(chunks, hobs, final(opaque)@, final(light_data)@, final(bfs_queue)@, seen_loaded(cx * 9 + cy * 3 + cz + 1, 0, 0, 0)),
{
    let csize = CHUNK_SIZE as usize;
    let ghost t = cx * 9 + cy * 3 + cz;
    assert(chunks[t] == Some(c));
    let mut i: u32 = 0;
    while i < CHUNK_SIZE
        invariant
            i <= 32,
            seeded(chunks, hobs, opaque@, light_data@, bfs_queue@, seen_loaded(t, i as int, 0, 0)),
        decreases 32 - i,
    {
        let mut j: u32 = 0;
        while j < CHUNK_SIZE
            invariant
                i < 32,
                j <= 32,
                seeded(chunks, hobs, opaque@, light_data@, bfs_queue@, seen_loaded(t, i as int, j as int, 0)),
            decreases 32 - j,
        {
            let mut k: u32 = 0;
            while k < CHUNK_SIZE
                invariant
                    i < 32,
                    j < 32,
                    k <= 32,
                    seeded(chunks, hobs, opaque@, light_data@, bfs_queue@, seen_loaded(t, i as int, j as int, k as int)),
                decreases 32 - k,
            {
                let x = cx * csize + i as usize;
                let y = cy * csize + j as usize;
                let z = cz * csize + k as usize;
                let s = (cx * csize + i as usize) * csize * csize * 9 + (cy * csize + j as usize) * csize * 3 + (cz * csize
                    + k as usize);
                let ghost done = seen_loaded(t, i as int, j as int, k as int);
                let ghost done2 = seen_loaded(t, i as int, j as int, k + 1);
                proof {
                    lemma_cell_of_slot(cx as int, cy as int, cz as int, i as int, j as int, k as int);
                    assert(s == grid_index(x as int, y as int, z as int));
                    lemma_grid_index_injective(x as int, y as int, z as int, x as int, y as int, z as int);
                    assert forall|a: int, b: int, e: int| in_grid(a, b, e) implies #[trigger] done2(a, b, e) == (done(a, b, e)
                        || (a == x && b == y && e == z)) by {
                        if slot_of(a, b, e) == t {
                            lemma_slot_cells(a, b, e, cx as int, cy as int, cz as int);
                        }
                    }
                    assert(c.data@[i * 1024 + j * 32 + k as int] == c.block_at(i, j, k));
                }
                let ghost op0 = opaque@;
                let ghost li0 = light_data@;
                let ghost q0 = bfs_queue@;
                if c.get_block_at((i, j, k)) != 0 {
                    opaque.set(s, true);
                    proof {
                        lemma_seed_cell(chunks, hobs, op0, li0, q0, done, done2, x, y, z, opaque@, light_data@, bfs_queue@);
                    }
                } else {
                    proof {
                        assert(c.data@[i * 1024 + j * 32 + k as int] == 0);
                        assert(chunks[t] matches Some(cc) && cc == c);
                    }
                    if c.pos.py * CHUNK_SIZE as i64 + j as i64 > highest_opaque_block.y[(i * CHUNK_SIZE + k) as usize] {
                        light_data.set(s, 15);
                        bfs_queue.push_back((x, y, z, 15));
                        proof {
                            lemma_seed_cell(chunks, hobs, op0, li0, q0, done, done2, x, y, z, opaque@, light_data@, bfs_queue@);
                        }
                    } else {
                        proof {
                            lemma_seed_cell(chunks, hobs, op0, li0, q0, done, done2, x, y, z, opaque@, light_data@, bfs_queue@);
                        }
                    }
                }
                k = k + 1;
            }
            proof {
                lemma_seed_same(chunks, hobs, opaque@, light_data@, bfs_queue@, seen_loaded(t, i as int, j as int, 32),
                    seen_loaded(t, i as int, j + 1, 0));
            }
            j = j + 1;
        }
        proof {
            lemma_seed_same(chunks, hobs, opaque@, light_data@, bfs_queue@, seen_loaded(t, i as int, 32, 0),
                seen_loaded(t, i + 1, 0, 0));
        }
        i = i + 1;
    }
    proof {
        assert forall|a: int, b: int, e: int| in_grid(a, b, e) implies #[trigger] seen_loaded(t, 32, 0, 0)(a, b, e) == seen_loaded(
            t + 1,
            0,
            0,
            0,
        )(a, b, e) by {
            lemma_slot_range(a, b, e);
            assert(0 <= a % 32 < 32) by (nonlinear_arith) requires 0 <= a;
        }
        lemma_seed_same(chunks, hobs, opaque@, light_data@, bfs_queue@, seen_loaded(t, 32, 0, 0), seen_loaded(t + 1, 0, 0, 0));
    }
}


/// Seed the light from a missing chunk: along each column, from the top down, the
/// blocks above the highest opaque block of the column get full light and are
/// queued as sources; the first block that is not above it ends the column
#[verifier::loop_isolation(false)]
fn seed_missing_chunk(
    light_data: &mut Vec<u8>,
    bfs_queue: &mut VecDeque<(usize, usize, usize, u8)>,
    highest_opaque_block: &HighestOpaqueBlock,
    cx: usize,
    cy: usize,
    cz: usize,
    y0: i64,
    Ghost(chunks): Ghost<Seq<Option<&Chunk>>>,
    Ghost(hobs): Ghost<Seq<HighestOpaqueBlock>>,
    Ghost(op): Ghost<Seq<bool>>,
)
    requires
        cx < 3 && cy < 3 && cz < 3,
        chunks.len() == 27,
        hobs.len() == 9,
        chunks[cx * 9 + cy * 3 + cz] is None,
        y0 == middle_py(chunks),
        hobs[cx * 3 + cz] == *highest_opaque_block,
        highest_opaque_block.wf(),
        light_heights_fit(chunks),
        seeded(chunks, hobs, op, old(light_data)@, old(bfs_queue)@, seen_loaded(cx * 9 + cy * 3 + cz, 0, 0, 0)),
    ensures
        seeded(chunks, hobs, op, final(light_data)@, final(bfs_queue)@, seen_loaded(cx * 9 + cy * 3 + cz + 1, 0, 0, 0)),
{
    let csize = CHUNK_SIZE as usize;
    let ghost t = cx * 9 + cy * 3 + cz;
    proof {
        lemma_cell_of_slot(cx as int, cy as int, cz as int, 0, 0, 0);
        assert(height_fits(middle_py(chunks) + (t / 3) % 3 - 1));
        assert forall|a: int, b: int, e: int| in_grid(a, b, e) implies #[trigger] seen_loaded(t, 0, 0, 0)(a, b, e)
            == seen_missing(t, 0, 0, 32)(a, b, e) by {
            assert(0 <= a % 32) by (nonlinear_arith) requires 0 <= a;
        }
        lemma_seed_same(chunks, hobs, op, light_data@, bfs_queue@, seen_loaded(t, 0, 0, 0), seen_missing(t, 0, 0, 32));
    }
    let mut i: u32 = 0;
    while i < CHUNK_SIZE
        invariant
            i <= 32,
            seeded(chunks, hobs, op, light_data@, bfs_queue@, seen_missing(t, i as int, 0, 32)),
        decreases 32 - i,
    {
        let mut k: u32 = 0;
        while k < CHUNK_SIZE
            invariant
                i < 32,
                k <= 32,
                seeded(chunks, hobs, op, light_data@, bfs_queue@, seen_missing(t, i as int, k as int, 32)),
            decreases 32 - k,
        {
            let h = highest_opaque_block.y[(i * CHUNK_SIZE + k) as usize];
            let mut j: u32 = CHUNK_SIZE;
            while j > 0
                invariant
                    i < 32,
                    k < 32,
                    j <= 32,
                    seeded(chunks, hobs, op, light_data@, bfs_queue@, seen_missing(t, i as int, k as int, j as int)),
                decreases j,
            {
                let jj = j - 1;
                let x = cx * csize + i as usize;
                let y = cy * csize + jj as usize;
                let z = cz * csize + k as usize;
                let s = (cx * csize + i as usize) * csize * csize * 9 + (cy * csize + jj as usize) * csize * 3 + (cz * csize
                    + k as usize);
                let ghost done = seen_missing(t, i as int, k as int, j as int);
                let ghost done2 = seen_missing(t, i as int, k as int, jj as int);
                proof {
                    lemma_cell_of_slot(cx as int, cy as int, cz as int, i as int, jj as int, k as int);
                    assert(s == grid_index(x as int, y as int, z as int));
                    lemma_grid_index_injective(x as int, y as int, z as int, x as int, y as int, z as int);
                }
                if (y0 + cy as i64 - 1) * CHUNK_SIZE as i64 + jj as i64 > h {
                    let ghost li0 = light_data@;
                    let ghost q0 = bfs_queue@;
                    light_data.set(s, 15);
                    bfs_queue.push_back((x, y, z, 15));
                    proof {
                        assert forall|a: int, b: int, e: int| in_grid(a, b, e) implies #[trigger] done2(a, b, e) == (done(
                            a,
                            b,
                            e,
                        ) || (a == x && b == y && e == z)) by {
                            if slot_of(a, b, e) == t {
                                lemma_slot_cells(a, b, e, cx as int, cy as int, cz as int);
                            }
                        }
                        lemma_seed_cell(chunks, hobs, op, li0, q0, done, done2, x, y, z, op, light_data@, bfs_queue@);
                    }
                    j = jj;
                } else {
                    proof {
                        let end = seen_missing(t, i as int, k as int, 0);
                        assert forall|a: int, b: int, e: int| in_grid(a, b, e) && #[trigger] done(a, b, e) implies end(a, b, e) by {}
                        assert forall|a: int, b: int, e: int|
                            in_grid(a, b, e) && #[trigger] end(a, b, e) && !done(a, b, e) implies !cell_solid(chunks, a, b, e)
                            && !sky_lit(chunks, hobs, a, b, e) by {
                            lemma_slot_cells(a, b, e, cx as int, cy as int, cz as int);
                            lemma_cell_of_slot(cx as int, cy as int, cz as int, a % 32, b % 32, e % 32);
                        }
                        lemma_seed_inert(chunks, hobs, op, light_data@, bfs_queue@, done, end);
                    }
                    break;
                }
            }
            proof {
                assert forall|a: int, b: int, e: int| in_grid(a, b, e) implies #[trigger] seen_missing(t, i as int, k as int, 0)(a, b, e)
                    == seen_missing(t, i as int, k + 1, 32)(a, b, e) by {
                    assert(0 <= b % 32 < 32) by (nonlinear_arith) requires 0 <= b;
                }
                lemma_seed_same(chunks, hobs, op, light_data@, bfs_queue@, seen_missing(t, i as int, k as int, 0), seen_missing(
                    t,
                    i as int,
                    k + 1,
                    32,
                ));
            }
            k = k + 1;
        }
        proof {
            assert forall|a: int, b: int, e: int| in_grid(a, b, e) implies #[trigger] seen_missing(t, i as int, 32, 32)(a, b, e)
                == seen_missing(t, i + 1, 0, 32)(a, b, e) by {
                assert(0 <= e % 32 < 32 && b % 32 < 32) by (nonlinear_arith) requires 0 <= e && 0 <= b;
            }
            lemma_seed_same(chunks, hobs, op, light_data@, bfs_queue@, seen_missing(t, i as int, 32, 32), seen_missing(
                t,
                i + 1,
                0,
                32,
            ));
        }
        i = i + 1;
    }
    proof {
        assert forall|a: int, b: int, e: int| in_grid(a, b, e) implies #[trigger] seen_missing(t, 32, 0, 32)(a, b, e) == seen_loaded(
            t + 1,
            0,
            0,
            0,
        )(a, b, e) by {
            assert(0 <= a % 32 < 32) by (nonlinear_arith) requires 0 <= a;
        }
        lemma_seed_same(chunks, hobs, op, light_data@, bfs_queue@, seen_missing(t, 32, 0, 32), seen_loaded(t + 1, 0, 0, 0));
    }
}


/// The block (i, j, k) of a chunk sits at `i * 1024 + j * 32 + k` in its storage
proof fn lemma_block_coords(i: int, j: int, k: int)
    requires
        0 <= i < 32 && 0 <= j < 32 && 0 <= k < 32,
    ensures
        (i * 1024 + j * 32 + k) / 1024 == i,
        ((i * 1024 + j * 32 + k) / 32) % 32 == j,
        (i * 1024 + j * 32 + k) % 32 == k,
        0 <= i * 1024 + j * 32 + k < 32768,
{
    assert((i * 1024 + j * 32 + k) / 1024 == i) by (nonlinear_arith)
        requires 0 <= j < 32 && 0 <= k < 32;
    assert((i * 1024 + j * 32 + k) / 32 == i * 32 + j) by (nonlinear_arith)
        requires 0 <= k < 32;
    assert((i * 32 + j) % 32 == j) by (nonlinear_arith)
        requires 0 <= j < 32, 0 <= i;
    assert((i * 1024 + j * 32 + k) % 32 == k) by (nonlinear_arith)
        requires 0 <= k < 32, 0 <= i, 0 <= j;
}

/// Take a 3x3x3 block of chunks (x major, then y, then z; the middle one, at
/// index 13, present) and the highest opaque blocks of their 3x3 columns, and
/// compute the light of the middle chunk with a breadth-first spread from the
/// cells open to the sky
pub fn compute_light(chunks: Vec<Option<&Chunk>>, highest_opaque_blocks: Vec<HighestOpaqueBlock>) -> (res: LightData)
    requires
        chunks.len() == 27,
        highest_opaque_blocks.len() == 9,
        chunks[13] is Some,
        forall|t: int| 0 <= t < 27 ==> (#[trigger] chunks[t] matches Some(c) ==> c.wf()),
        forall|t: int| 0 <= t < 9 ==> #[trigger] highest_opaque_blocks[t].wf(),
        light_heights_fit(chunks@),
    ensures
        exists|lf: Seq<u8>| is_light_field(chunks@, highest_opaque_blocks@, lf) && res.light_level@ == middle_light(lf),
{
    let ghost cs = chunks@;
    let ghost hs = highest_opaque_blocks@;
    let mut res = LightData::new();
    let mut bfs_queue: VecDeque<(usize, usize, usize, u8)> = VecDeque::new();
    let mut light_data: Vec<u8> = vec![0u8; 884736];
    let mut opaque: Vec<bool> = vec![false; 884736];
    let csize = CHUNK_SIZE as usize;
    let y0 = chunks[13].unwrap().pos.py;
    proof {
        assert forall|i: int| 0 <= i < light_data@.len() implies #[trigger] light_data@[i] == 0 by {
            assert(cloned(0u8, light_data@[i]));
        }
        assert forall|i: int| 0 <= i < opaque@.len() implies #[trigger] opaque@[i] == false by {
            assert(cloned(false, opaque@[i]));
        }
        assert forall|x: int, y: int, z: int| in_grid(x, y, z) implies !#[trigger] seen_loaded(0, 0, 0, 0)(x, y, z) by {
            lemma_slot_range(x, y, z);
        }
        assert forall|x: int, y: int, z: int| in_grid(x, y, z) implies opaque@[#[trigger] grid_index(x, y, z)] == false
            && light_data@[grid_index(x, y, z)] == 0 by {
            lemma_grid_index_injective(x, y, z, x, y, z);
        }
        assert(seeded(cs, hs, opaque@, light_data@, bfs_queue@, seen_loaded(0, 0, 0, 0)));
    }
    let mut cx: usize = 0;
    while cx < 3
        invariant
            cx <= 3,
            chunks@ == cs,
            highest_opaque_blocks@ == hs,
            cs.len() == 27,
            hs.len() == 9,
            y0 == middle_py(cs),
            forall|t: int| 0 <= t < 27 ==> (#[trigger] cs[t] matches Some(c) ==> c.wf()),
            forall|t: int| 0 <= t < 9 ==> #[trigger] hs[t].wf(),
            light_heights_fit(cs),
            seeded(cs, hs, opaque@, light_data@, bfs_queue@, seen_loaded(cx * 9, 0, 0, 0)),
        decreases 3 - cx,
    {
        let mut cy: usize = 0;
        while cy < 3
            invariant
                cx < 3,
                cy <= 3,
                chunks@ == cs,
                highest_opaque_blocks@ == hs,
                cs.len() == 27,
                hs.len() == 9,
                y0 == middle_py(cs),
                forall|t: int| 0 <= t < 27 ==> (#[trigger] cs[t] matches Some(c) ==> c.wf()),
                forall|t: int| 0 <= t < 9 ==> #[trigger] hs[t].wf(),
                light_heights_fit(cs),
                seeded(cs, hs, opaque@, light_data@, bfs_queue@, seen_loaded(cx * 9 + cy * 3, 0, 0, 0)),
            decreases 3 - cy,
        {
            let mut cz: usize = 0;
            while cz < 3
                invariant
                    cx < 3,
                    cy < 3,
                    cz <= 3,
                    chunks@ == cs,
                    highest_opaque_blocks@ == hs,
                    cs.len() == 27,
                    hs.len() == 9,
                    y0 == middle_py(cs),
                    forall|t: int| 0 <= t < 27 ==> (#[trigger] cs[t] matches Some(c) ==> c.wf()),
                    forall|t: int| 0 <= t < 9 ==> #[trigger] hs[t].wf(),
                    light_heights_fit(cs),
                    seeded(cs, hs, opaque@, light_data@, bfs_queue@, seen_loaded(cx * 9 + cy * 3 + cz, 0, 0, 0)),
                decreases 3 - cz,
            {
                let chunk = chunks[cx * 9 + cy * 3 + cz];
                let highest_opaque_block = &highest_opaque_blocks[cx * 3 + cz];
                match chunk {
                    None => {
                        seed_missing_chunk(&mut light_data, &mut bfs_queue, highest_opaque_block, cx, cy, cz, y0, Ghost(cs),
                            Ghost(hs), Ghost(opaque@));
                    },
                    Some(c) => {
                        seed_loaded_chunk(&mut light_data, &mut opaque, &mut bfs_queue, c, highest_opaque_block, cx, cy, cz,
                            Ghost(cs), Ghost(hs));
                    },
                }
                cz = cz + 1;
            }
            cy = cy + 1;
        }
        cx = cx + 1;
    }
    proof {
        lemma_seed_finish(cs, hs, opaque@, light_data@, bfs_queue@);
    }
    spread_light(&mut light_data, &opaque, &mut bfs_queue, Ghost(opaque_marks_of(cs)), Ghost(start_light_of(cs, hs)),
        Ghost(sources_of(cs, hs)));
    let ghost lf = light_data@;
    let mut i: usize = 0;
    while i < csize
        invariant
            i <= 32,
            csize == 32,
            light_data@ == lf,
            lf.len() == grid_len(),
            res.light_level@.len() == 32768,
            forall|n: int| 0 <= n < i * 1024 ==> #[trigger] res.light_level@[n] == middle_light(lf)[n],
        decreases 32 - i,
    {
        let mut j: usize = 0;
        while j < csize
            invariant
                i < 32,
                j <= 32,
                csize == 32,
                light_data@ == lf,
                lf.len() == grid_len(),
                res.light_level@.len() == 32768,
                forall|n: int| 0 <= n < i * 1024 + j * 32 ==> #[trigger] res.light_level@[n] == middle_light(lf)[n],
            decreases 32 - j,
        {
            let mut k: usize = 0;
            while k < csize
                invariant
                    i < 32,
                    j < 32,
                    k <= 32,
                    csize == 32,
                    light_data@ == lf,
                    lf.len() == grid_len(),
                    res.light_level@.len() == 32768,
                    forall|n: int| 0 <= n < i * 1024 + j * 32 + k ==> #[trigger] res.light_level@[n] == middle_light(lf)[n],
                decreases 32 - k,
            {
                proof {
                    lemma_block_coords(i as int, j as int, k as int);
                    lemma_grid_index_injective(i + 32, j + 32, k + 32, i + 32, j + 32, k + 32);
                }
                let v = light_data[(i + csize) * csize * csize * 9 + (j + csize) * 3 * csize + (k + csize)];
                res.light_level.set(i * csize * csize + j * csize + k, v);
                k = k + 1;
            }
            j = j + 1;
        }
        i = i + 1;
    }
    assert(res.light_level@ =~= middle_light(lf));
    res
}

/// Cells with the same coordinates in the grid have the same index, and no other
pub proof fn lemma_grid_index_injective(x: int, y: int, z: int, a: int, b: int, c: int)
    requires
        in_grid(x, y, z),
        in_grid(a, b, c),
    ensures
        (grid_index(x, y, z) == grid_index(a, b, c)) <==> (x == a && y == b && z == c),
        0 <= grid_index(x, y, z) < grid_len(),
{
}

} // verus!
